use nono_cli::attach::{self_attach_payload, self_attach_succeeded};
use nono_cli::decimal::MAX_PID_DIGITS;
use nono_cli::delegation::ResourceLimits;
use nono_cli::error::NonoError;
use nono_cli::leaf::{knobs, CgroupLeaf, LeafStep};
use nono_cli::request::{Reply, Request};
use nono_cli::teardown::{Teardown, TeardownStep, REAP_POLL_ATTEMPTS, REAP_POLL_MILLIS};

const MEMBERSHIP: &str = "0::/user.slice/user@1000.service/app.slice\n";
const BASE: &str = "/sys/fs/cgroup/user.slice/user@1000.service";
const LEAF: &str = "/sys/fs/cgroup/user.slice/user@1000.service/nono.4242";

#[derive(Debug, PartialEq)]
enum End {
    Waiting,
    Armed(String),
    Refused(Option<String>, String),
}

fn ok(text: &str) -> Reply {
    Ok(text.to_string())
}

fn failed(cause: &str) -> Reply {
    Err(cause.to_string())
}

fn read(path: &str) -> Request {
    Request::Read { path: path.to_string() }
}

fn write(path: String, value: &str) -> Request {
    Request::Write { path, value: value.to_string() }
}

/// Runs a creation on the given replies, and returns what was asked for and where
/// it ended.
fn create(memory_bytes: Option<u64>, replies: Vec<Reply>) -> (Vec<Request>, End) {
    let limits = ResourceLimits { memory_bytes };
    let mut step = CgroupLeaf::create_as(&limits, 1000, 4242);
    let mut asked = Vec::new();
    let mut replies = replies.into_iter();
    loop {
        match step {
            LeafStep::Perform { leaf, request } => {
                asked.push(request);
                match replies.next() {
                    Some(reply) => step = leaf.advance(reply),
                    None => return (asked, End::Waiting),
                }
            }
            LeafStep::Armed { path } => return (asked, End::Armed(path)),
            LeafStep::Refused { leftover, error } => {
                let NonoError::SandboxInit(text) = error;
                return (asked, End::Refused(leftover, text));
            }
        }
    }
}

/// Runs a teardown on the given replies.
fn tear_down(path: &str, reply: fn(&Request, usize) -> Reply) -> Vec<Request> {
    let mut step = Teardown::begin(path.to_string());
    let mut asked: Vec<Request> = Vec::new();
    while let TeardownStep::Perform { teardown, request } = step {
        let answer = reply(&request, asked.len());
        asked.push(request);
        step = teardown.advance(answer);
    }
    asked
}

fn good_replies() -> Vec<Reply> {
    vec![
        ok(MEMBERSHIP),
        ok(""),
        ok("cpu memory pids\n"),
        ok(""),
        ok(""),
        ok(""),
        ok(""),
        ok(""),
    ]
}

#[test]
fn knobs_for_a_memory_limit() {
    let list = knobs(&ResourceLimits { memory_bytes: Some(64 * 1024 * 1024) });
    let list: Vec<(&str, &str)> = list
        .iter()
        .map(|knob| (knob.name.as_str(), knob.value.as_str()))
        .collect();
    assert_eq!(
        list,
        vec![
            ("memory.swap.max", "0"),
            ("memory.max", "67108864"),
            ("memory.oom.group", "1"),
        ]
    );
}

#[test]
fn no_knobs_without_a_limit() {
    assert!(knobs(&ResourceLimits { memory_bytes: None }).is_empty());
}

#[test]
fn arms_a_leaf_in_order() {
    let (asked, end) = create(Some(67_108_864), good_replies());
    assert_eq!(end, End::Armed(LEAF.to_string()));
    assert_eq!(
        asked,
        vec![
            read("/proc/self/cgroup"),
            Request::ProbeDir { path: BASE.to_string() },
            read(&format!("{BASE}/cgroup.subtree_control")),
            Request::CreateDir { path: LEAF.to_string() },
            write(format!("{LEAF}/memory.swap.max"), "0"),
            write(format!("{LEAF}/memory.max"), "67108864"),
            write(format!("{LEAF}/memory.oom.group"), "1"),
            Request::OpenForWriting { path: format!("{LEAF}/cgroup.procs") },
        ]
    );
}

#[test]
fn arms_a_leaf_without_limits() {
    let replies = vec![ok(MEMBERSHIP), ok(""), ok(""), ok(""), ok("")];
    let (asked, end) = create(None, replies);
    assert_eq!(end, End::Armed(LEAF.to_string()));
    assert_eq!(asked.len(), 5);
    assert_eq!(
        asked[4],
        Request::OpenForWriting { path: format!("{LEAF}/cgroup.procs") }
    );
}

/// Each request may fail, and each failure refuses the run, with its own
/// explanation; a directory is named for removal where it was created, and only
/// there.
#[test]
fn each_failure_refuses_with_its_explanation() {
    let expected: [(Option<&str>, String); 8] = [
        (None, "resource: cannot read /proc/self/cgroup: broken".to_string()),
        (None, format!("resource: delegated cgroup path {BASE} does not exist")),
        (None, format!("resource: cannot read {BASE}/cgroup.subtree_control (broken)")),
        (None, format!("resource: failed to create cgroup leaf {LEAF}: broken")),
        (
            Some(LEAF),
            format!(
                "resource: failed to write '0' to {LEAF}/memory.swap.max (broken); \
                 is the cgroup v2 controller delegated?"
            ),
        ),
        (
            Some(LEAF),
            format!(
                "resource: failed to write '67108864' to {LEAF}/memory.max (broken); \
                 is the cgroup v2 controller delegated?"
            ),
        ),
        (
            Some(LEAF),
            format!(
                "resource: failed to write '1' to {LEAF}/memory.oom.group (broken); \
                 is the cgroup v2 controller delegated?"
            ),
        ),
        (
            Some(LEAF),
            format!("resource: failed to open {LEAF}/cgroup.procs for self-attach (broken)"),
        ),
    ];
    for (i, (leftover, text)) in expected.into_iter().enumerate() {
        let mut replies = good_replies();
        replies[i] = failed("broken");
        let (asked, end) = create(Some(67_108_864), replies);
        assert_eq!(asked.len(), i + 1, "nothing is asked for after a failure");
        assert_eq!(end, End::Refused(leftover.map(|path| path.to_string()), text));
    }
}

/// A leftover directory of the same name is a hard error, and is left alone.
#[test]
fn existing_directory_is_not_adopted_and_not_removed() {
    let mut replies = good_replies();
    replies[3] = failed("File exists (os error 17)");
    let (_, end) = create(Some(1), replies);
    assert_eq!(
        end,
        End::Refused(
            None,
            format!("resource: failed to create cgroup leaf {LEAF}: File exists (os error 17)")
        )
    );
}

#[test]
fn refuses_without_delegation_or_controller() {
    let (asked, end) = create(Some(1), vec![ok("0::/system.slice\n")]);
    assert_eq!(asked.len(), 1);
    assert!(matches!(end, End::Refused(None, _)));
    let (asked, end) = create(Some(1), vec![ok(MEMBERSHIP), ok(""), ok("cpu pids")]);
    assert_eq!(asked.len(), 3);
    assert!(matches!(end, End::Refused(None, _)));
}

#[test]
fn waits_until_every_reply_is_there() {
    for n in 0..8 {
        let replies: Vec<Reply> = good_replies().into_iter().take(n).collect();
        let (asked, end) = create(Some(1), replies);
        assert_eq!(asked.len(), n + 1);
        assert_eq!(end, End::Waiting);
    }
}

/// The leaf is looked for under the user who runs the process.
#[test]
fn creates_for_the_current_user() {
    let uid = nix::unistd::Uid::current().as_raw();
    let limits = ResourceLimits { memory_bytes: None };
    let LeafStep::Perform { leaf, request } = CgroupLeaf::create(&limits, 7) else {
        panic!("a creation begins with a request");
    };
    assert_eq!(request, read("/proc/self/cgroup"));
    let LeafStep::Perform { leaf: _, request } = leaf.advance(Ok(format!("0::/user@{uid}.service/x")))
    else {
        panic!("the user's own directory is found");
    };
    assert_eq!(
        request,
        Request::ProbeDir { path: format!("/sys/fs/cgroup/user@{uid}.service") }
    );
}

#[test]
fn empty_leaf_is_removed_without_sleeping() {
    let asked = tear_down(LEAF, |_, _| ok(" \n"));
    assert_eq!(
        asked,
        vec![
            write(format!("{LEAF}/cgroup.kill"), "1"),
            read(&format!("{LEAF}/cgroup.procs")),
            Request::RemoveDir { path: LEAF.to_string() },
        ]
    );
}

#[test]
fn unreadable_leaf_is_removed_without_sleeping() {
    let asked = tear_down(LEAF, |_, _| failed("gone"));
    assert_eq!(asked.len(), 3);
    assert_eq!(asked[2], Request::RemoveDir { path: LEAF.to_string() });
}

#[test]
fn busy_leaf_is_polled_until_it_empties() {
    let asked = tear_down(LEAF, |_, i| ok(if i < 5 { "17\n" } else { "" }));
    let sleep = || Request::Sleep { millis: 10 };
    let check = || read(&format!("{LEAF}/cgroup.procs"));
    assert_eq!(
        asked,
        vec![
            write(format!("{LEAF}/cgroup.kill"), "1"),
            check(),
            sleep(),
            check(),
            sleep(),
            check(),
            Request::RemoveDir { path: LEAF.to_string() },
        ]
    );
}

/// A leaf that never empties costs fifty checks and half a second, and its removal
/// is still asked for.
#[test]
fn stuck_leaf_exhausts_the_poll_budget() {
    let asked = tear_down(LEAF, |_, _| ok("17\n"));
    let sleeps = asked
        .iter()
        .filter(|request| **request == Request::Sleep { millis: REAP_POLL_MILLIS })
        .count();
    let checks = asked
        .iter()
        .filter(|request| matches!(request, Request::Read { .. }))
        .count();
    assert_eq!(REAP_POLL_ATTEMPTS, 50);
    assert_eq!(sleeps, 50);
    assert_eq!(checks, 50);
    assert_eq!(asked.len(), 102);
    assert_eq!(asked.last(), Some(&Request::RemoveDir { path: LEAF.to_string() }));
}

#[test]
fn payload_is_the_own_pid() {
    let mut buf = [0u8; MAX_PID_DIGITS];
    assert_eq!(
        self_attach_payload(&mut buf),
        nix::unistd::getpid().to_string().as_bytes()
    );
}

#[test]
fn only_a_complete_write_attaches() {
    assert!(self_attach_succeeded(b"4242", 4));
    assert!(!self_attach_succeeded(b"4242", 3));
    assert!(!self_attach_succeeded(b"4242", 5));
    assert!(!self_attach_succeeded(b"4242", 0));
    assert!(!self_attach_succeeded(b"4242", -1));
}
