use nono_cli::delegation::{ensure_controllers_delegated, parse_delegated_base, ResourceLimits};
use nono_cli::error::NonoError;
use std::path::PathBuf;

fn explanation(error: NonoError) -> String {
    let NonoError::SandboxInit(text) = error;
    text
}

#[test]
fn parses_user_service_ancestor_from_deep_path() {
    let raw = "0::/user.slice/user-1000.slice/user@1000.service/app.slice/\
               app-org.gnome.Terminal.slice/vte-spawn-abc.scope\n";
    let base = parse_delegated_base(raw, 1000).expect("should parse");
    assert_eq!(
        PathBuf::from(base),
        PathBuf::from("/sys/fs/cgroup/user.slice/user-1000.slice/user@1000.service")
    );
}

#[test]
fn stops_at_user_service_even_when_it_is_the_leaf() {
    let raw = "0::/user.slice/user-501.slice/user@501.service\n";
    let base = parse_delegated_base(raw, 501).expect("should parse");
    assert_eq!(
        PathBuf::from(base),
        PathBuf::from("/sys/fs/cgroup/user.slice/user-501.slice/user@501.service")
    );
}

#[test]
fn rejects_non_unified_hierarchy() {
    // A v1/hybrid line has a non-zero hierarchy id and named controllers.
    let raw = "1:name=systemd:/user.slice/session-2.scope\n";
    assert!(parse_delegated_base(raw, 1000).is_err());
}

#[test]
fn rejects_session_without_user_service_delegation() {
    // e.g. launched from a system service: no user@<uid>.service ancestor.
    let raw = "0::/system.slice/cron.service\n";
    assert!(parse_delegated_base(raw, 1000).is_err());
}

#[test]
fn rejects_mismatched_uid() {
    // The path is for uid 1000 but we are uid 1001 - not our delegation.
    let raw = "0::/user.slice/user-1000.slice/user@1000.service/app.slice\n";
    assert!(parse_delegated_base(raw, 1001).is_err());
}

/// The delegation boundary is matched by whole path segment, never by substring.
/// Every one of these must be rejected for uid 1000 (no exact-segment match).
#[test]
fn rejects_adversarial_segment_lookalikes_componentwise() {
    let poisoned = [
        // marker with a trailing suffix on the same segment (prefix match)
        "0::/user.slice/user-1000.slice/user@1000.service.evil/app.slice\n",
        "0::/user.slice/user-1000.slice/user@1000.serviceX\n",
        // marker as a strict SUFFIX of a single segment
        "0::/user.slice/user-1000.slice/xuser@1000.service/app.slice\n",
        "0::/user.slice/user-1000.slice/evil-user@1000.service\n",
        // marker embedded mid-segment (would be caught by `contains`)
        "0::/user.slice/prefixuser@1000.servicesuffix/app.slice\n",
        // dot/underscore confusable that is NOT a path separator
        "0::/user.slice/user@1000_service\n",
        // a stray space welds trailing junk onto the marker segment; a segment
        // does not end at a space, so it is "user@1000.service junk".
        "0::/user.slice/user@1000.service junk/app.scope\n",
    ];
    for raw in poisoned {
        assert!(
            parse_delegated_base(raw, 1000).is_err(),
            "adversarial lookalike segment must NOT match the delegation boundary: {raw:?}"
        );
    }
}

/// The uid is baked into the marker (`user@<uid>.service`) and must match a whole
/// segment: uid 100's marker must not match a `user@1000.service` segment, and
/// vice versa.
#[test]
fn rejects_uid_that_is_substring_of_another_uid() {
    // Path delegates uid 1000; asking as uid 100 (a substring) must fail.
    let raw_1000 = "0::/user.slice/user-1000.slice/user@1000.service/app.slice\n";
    assert!(
        parse_delegated_base(raw_1000, 100).is_err(),
        "uid 100 must not borrow uid 1000's delegation (substring match)"
    );
    // Symmetric: path delegates uid 100; asking as uid 1000 must fail.
    let raw_100 = "0::/user.slice/user-100.slice/user@100.service/app.slice\n";
    assert!(
        parse_delegated_base(raw_100, 1000).is_err(),
        "uid 1000 must not match uid 100's delegation"
    );
    // Exact uid still works (guards against the test over-rejecting).
    let base = parse_delegated_base(raw_1000, 1000).expect("exact uid must match");
    assert_eq!(
        PathBuf::from(base),
        PathBuf::from("/sys/fs/cgroup/user.slice/user-1000.slice/user@1000.service")
    );
}

/// The marker can sit at an interior position with descendants below it; the
/// returned base must be truncated to exactly the marker (the delegation
/// boundary), discarding everything below - even with a trailing slash and a
/// non-first `0::` line.
#[test]
fn parses_marker_as_nonfinal_segment_and_truncates_exactly() {
    let raw = "1:name=systemd:/legacy/ignored\n\
               0::/user.slice/user-1000.slice/user@1000.service/app.slice/svc.scope\n";
    let base = parse_delegated_base(raw, 1000).expect("should parse");
    assert_eq!(
        PathBuf::from(base),
        PathBuf::from("/sys/fs/cgroup/user.slice/user-1000.slice/user@1000.service"),
        "base must stop at the marker even with descendants below it"
    );

    // Trailing slash after the marker: the empty tail is dropped, so the result
    // is identical.
    let raw_slash = "0::/user.slice/user@1000.service/\n";
    let base_slash = parse_delegated_base(raw_slash, 1000).expect("should parse");
    assert_eq!(
        PathBuf::from(base_slash),
        PathBuf::from("/sys/fs/cgroup/user.slice/user@1000.service")
    );
}

#[test]
fn explains_a_missing_unified_line() {
    for raw in ["", "\n", "1:name=systemd:/a\n", " 0::/user@7.service\n", "0:/user@7.service"] {
        let error = parse_delegated_base(raw, 7).expect_err("no line starts with 0::");
        assert_eq!(
            explanation(error),
            "resource: not a unified cgroup v2 hierarchy (no '0::' line in /proc/self/cgroup); \
             cgroup resource limits are unavailable"
        );
    }
}

#[test]
fn explains_a_missing_delegation_with_the_trimmed_path() {
    let error = parse_delegated_base("0:: /system.slice/cron.service\t\r\n", 1000)
        .expect_err("no marker on the path");
    assert_eq!(
        explanation(error),
        "resource: no delegated cgroup v2 subtree for this session (expected a \
         'user@1000.service' ancestor in '/system.slice/cron.service'); resource limits require \
         a delegated user session (systemd Delegate=yes)"
    );
}

#[test]
fn only_the_first_unified_line_counts() {
    let raw = "0::/elsewhere\n0::/user@7.service\n";
    assert!(parse_delegated_base(raw, 7).is_err());
    let raw = "0::/user@7.service\n0::/elsewhere\n";
    assert_eq!(
        parse_delegated_base(raw, 7).expect("first line has the marker"),
        "/sys/fs/cgroup/user@7.service"
    );
}

#[test]
fn cuts_at_the_first_of_several_markers() {
    let raw = "0::/a/user@7.service/b/user@7.service/c";
    assert_eq!(
        parse_delegated_base(raw, 7).expect("marker twice"),
        "/sys/fs/cgroup/a/user@7.service"
    );
}

#[test]
fn empty_segments_and_carriage_returns_do_not_matter() {
    let raw = "2:cpu:/x\r\n0::///a//user@4294967295.service\r\n";
    assert_eq!(
        parse_delegated_base(raw, u32::MAX).expect("marker of the largest uid"),
        "/sys/fs/cgroup/a/user@4294967295.service"
    );
    let raw = "0::user@0.service";
    assert_eq!(
        parse_delegated_base(raw, 0).expect("marker of root, no leading slash"),
        "/sys/fs/cgroup/user@0.service"
    );
}

/// No two users are given the same directory, whatever the path says.
#[test]
fn users_never_share_a_directory() {
    let raw = "0::/user@1.service/user@10.service/user@100.service";
    let mut seen: Vec<String> = Vec::new();
    for uid in [1u32, 10, 100] {
        let base = parse_delegated_base(raw, uid).expect("marker is there");
        assert!(base.ends_with(&format!("/user@{uid}.service")));
        assert!(!seen.contains(&base));
        seen.push(base);
    }
}

#[test]
fn memory_limit_needs_the_memory_controller() {
    let limits = ResourceLimits { memory_bytes: Some(1) };
    for subtree in ["memory", "cpu memory pids\n", "\tcpu\nmemory", "memory\u{2003}io"] {
        assert_eq!(ensure_controllers_delegated("/b", &limits, subtree), Ok(()));
    }
    for subtree in ["", "cpu pids\n", "memoryx", "xmemory cpu", "mem ory", "memory,cpu", "Memory"] {
        assert!(ensure_controllers_delegated("/b", &limits, subtree).is_err());
    }
}

#[test]
fn explains_a_missing_memory_controller() {
    let limits = ResourceLimits { memory_bytes: Some(64 * 1024 * 1024) };
    let error = ensure_controllers_delegated("/sys/fs/cgroup/u", &limits, " cpu pids\n")
        .expect_err("memory is missing");
    assert_eq!(
        explanation(error),
        "resource: the 'memory' controller is not delegated to /sys/fs/cgroup/u \
         (cgroup.subtree_control = 'cpu pids'); cannot enforce --memory"
    );
}

#[test]
fn without_a_limit_no_controller_is_needed() {
    let limits = ResourceLimits { memory_bytes: None };
    assert_eq!(ensure_controllers_delegated("/b", &limits, ""), Ok(()));
}
