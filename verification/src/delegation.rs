//! Where a session may create cgroups, and with which controllers.
use crate::decimal::{
    decimal, decimal_string, denotes, law_decimal_denotes, law_decimal_is_canonical,
    law_decimal_is_injective, law_numeral_is_unique,
};
use crate::error::{outcome, verdict, NonoError};
use crate::path::{descend, join, law_descend_appends, slashed};
use crate::text::{
    delimited, fields, fields_of, law_fields_are_whole_pieces, law_fields_at_separator,
    law_fields_between, law_fields_hold_no_separator, law_line_endings, law_lines_at_line_feed,
    law_trim_ignores_end, lines, lines_of, same, strip_prefix, trim, trim_of, white_space,
    without_cr, Separator,
};
use vstd::prelude::*;

verus! {

/// Resource ceilings of one run.
#[derive(Clone, Copy, Debug)]
pub struct ResourceLimits {
    /// The most memory that the run may use, in bytes, where it is limited.
    pub memory_bytes: Option<u64>,
}

/// What follows `0::` in the first line that starts so.
pub open spec fn unified_entry(lines: Seq<Seq<char>>) -> Option<Seq<char>>
    decreases lines.len(),
{
    if lines.len() == 0 {
        None
    } else if "0::"@.is_prefix_of(lines[0]) {
        Some(lines[0].skip(3))
    } else {
        unified_entry(lines.drop_first())
    }
}

/// The name of the cgroup that systemd delegates to a user.
pub open spec fn marker_of(uid: u32) -> Seq<char> {
    "user@"@ + decimal(uid as nat) + ".service"@
}

/// The segments up to and including the first that is `marker`.
pub open spec fn up_to(segments: Seq<Seq<char>>, marker: Seq<char>) -> Option<Seq<Seq<char>>>
    decreases segments.len(),
{
    if segments.len() == 0 {
        None
    } else {
        match up_to(segments.drop_last(), marker) {
            Some(found) => Some(found),
            None => if segments.last() == marker {
                Some(segments)
            } else {
                None
            },
        }
    }
}

/// The explanation where the hierarchy is not a unified one.
pub open spec fn not_unified() -> Seq<char> {
    "resource: not a unified cgroup v2 hierarchy (no '0::' line in /proc/self/cgroup); cgroup resource limits are unavailable"@
}

/// The explanation where no segment of `rel` is `marker`.
pub open spec fn not_delegated(marker: Seq<char>, rel: Seq<char>) -> Seq<char> {
    "resource: no delegated cgroup v2 subtree for this session (expected a '"@ + marker
        + "' ancestor in '"@ + rel
        + "'); resource limits require a delegated user session (systemd Delegate=yes)"@
}

/// The directory delegated to user `uid` on the path `rel` below the mount point:
/// that path, cut off behind the segment that systemd delegates to the user.
pub open spec fn base_in(rel: Seq<char>, uid: u32) -> Result<Seq<char>, Seq<char>> {
    match up_to(fields_of(rel, Separator::Char('/')), marker_of(uid)) {
        None => Err(not_delegated(marker_of(uid), rel)),
        Some(segments) => Ok(descend("/sys/fs/cgroup"@, segments)),
    }
}

/// The delegated directory of user `uid`, given what `/proc/self/cgroup` holds:
/// the one on the path that the `0::` line gives.
pub open spec fn delegated_base_of(membership: Seq<char>, uid: u32) -> Result<
    Seq<char>,
    Seq<char>,
> {
    match unified_entry(lines_of(membership)) {
        None => Err(not_unified()),
        Some(entry) => base_in(trim_of(entry), uid),
    }
}

proof fn lemma_up_to_settled(segments: Seq<Seq<char>>, marker: Seq<char>, k: int)
    requires
        0 <= k <= segments.len(),
        up_to(segments.take(k), marker) is Some,
    ensures
        up_to(segments, marker) == up_to(segments.take(k), marker),
    decreases segments.len(),
{
    if k == segments.len() {
        assert(segments.take(k) == segments);
    } else {
        assert(segments.drop_last().take(k) == segments.take(k));
        lemma_up_to_settled(segments.drop_last(), marker, k);
    }
}

/// Finds what follows `0::` in the first line that starts so.
fn find_unified_entry<'a>(membership: &'a str) -> (entry: Option<&'a str>)
    ensures
        entry is Some <==> unified_entry(lines_of(membership@)) is Some,
        entry matches Some(e) ==> unified_entry(lines_of(membership@)) == Some(e@),
{
    let list = lines(membership);
    let ghost all = lines_of(membership@);
    proof {
        reveal_strlit("0::");
    }
    assert(all.skip(0) == all);
    for i in 0..list.len()
        invariant
            all == lines_of(membership@),
            all == crate::text::contents(list@),
            "0::"@.len() == 3,
            unified_entry(all) == unified_entry(all.skip(i as int)),
    {
        assert(all.skip(i as int)[0] == list@[i as int]@);
        assert(all.skip(i as int).drop_first() == all.skip(i + 1));
        if let Some(entry) = strip_prefix(list[i], "0::") {
            return Some(entry);
        }
    }
    None
}

/// Renders the name of the cgroup that systemd delegates to a user.
fn marker(uid: u32) -> (name: String)
    ensures
        name@ == marker_of(uid),
{
    let mut name = "user@".to_owned();
    name.append(decimal_string(uid as u64).as_str());
    name.append(".service");
    name
}

/// Takes what `/proc/self/cgroup` holds and the uid, and returns the absolute path
/// of the `user@<uid>.service` ancestor: the directory below which systemd lets
/// the user's session create cgroups.
pub fn parse_delegated_base(proc_self_cgroup: &str, uid: u32) -> (base: Result<String, NonoError>)
    ensures
        outcome(base) == delegated_base_of(proc_self_cgroup@, uid),
        base matches Ok(directory) ==> is_users_directory(directory@, uid),
{
    let rel = match find_unified_entry(proc_self_cgroup) {
        Some(entry) => trim(entry),
        None => {
            return Err(
                NonoError::SandboxInit(
                    "resource: not a unified cgroup v2 hierarchy (no '0::' line in /proc/self/cgroup); cgroup resource limits are unavailable".to_owned(),
                ),
            );
        },
    };
    let name = marker(uid);
    let segments = fields(rel, Separator::Char('/'));
    let ghost all = fields_of(rel@, Separator::Char('/'));
    let mut path = "/sys/fs/cgroup".to_owned();
    for i in 0..segments.len()
        invariant
            all == crate::text::contents(segments@),
            name@ == marker_of(uid),
            unified_entry(lines_of(proc_self_cgroup@)) is Some,
            rel@ == trim_of(unified_entry(lines_of(proc_self_cgroup@))->Some_0),
            all == fields_of(rel@, Separator::Char('/')),
            path@ == descend("/sys/fs/cgroup"@, all.take(i as int)),
            up_to(all.take(i as int), name@) is None,
    {
        assert(all.take(i + 1).drop_last() == all.take(i as int));
        assert(all.take(i + 1).last() == segments@[i as int]@);
        path = join(path.as_str(), segments[i]);
        if same(segments[i], name.as_str()) {
            proof {
                lemma_up_to_settled(all, name@, i + 1);
                law_found_directory_is_the_users(proc_self_cgroup@, uid);
            }
            return Ok(path);
        }
    }
    assert(all.take(segments.len() as int) == all);
    let mut explanation =
        "resource: no delegated cgroup v2 subtree for this session (expected a '".to_owned();
    explanation.append(name.as_str());
    explanation.append("' ancestor in '");
    explanation.append(rel);
    explanation.append(
        "'); resource limits require a delegated user session (systemd Delegate=yes)",
    );
    Err(NonoError::SandboxInit(explanation))
}

/// The explanation where the memory controller is missing from `subtree`, which
/// is what `cgroup.subtree_control` in `base` holds.
pub open spec fn memory_not_delegated(base: Seq<char>, subtree: Seq<char>) -> Seq<char> {
    "resource: the 'memory' controller is not delegated to "@ + base
        + " (cgroup.subtree_control = '"@ + trim_of(subtree) + "'); cannot enforce --memory"@
}

/// Whether the controllers that `limits` needs are among those in `subtree`: for a
/// memory limit, `memory` as a word of its own.
pub open spec fn controllers_verdict(
    base: Seq<char>,
    limits: ResourceLimits,
    subtree: Seq<char>,
) -> Result<(), Seq<char>> {
    if limits.memory_bytes is Some && !fields_of(subtree, Separator::WhiteSpace).contains(
        "memory"@,
    ) {
        Err(memory_not_delegated(base, subtree))
    } else {
        Ok(())
    }
}

/// Verifies that the controllers we need are enabled for child cgroups, given what
/// `cgroup.subtree_control` in `base` holds. A cgroup only exposes a controller's
/// knobs if its parent lists that controller there; without it a cap would
/// silently fail to apply.
pub fn ensure_controllers_delegated(base: &str, limits: &ResourceLimits, subtree: &str) -> (checked:
    Result<(), NonoError>)
    ensures
        verdict(checked) == controllers_verdict(base@, *limits, subtree@),
        checked is Err <==> limits.memory_bytes is Some && !(exists|a: int, b: int| #[trigger]
            is_word(subtree@, a, b) && subtree@.subrange(a, b) == seq![
                'm',
                'e',
                'm',
                'o',
                'r',
                'y',
            ]),
{
    proof {
        law_memory_limit_needs_the_word_memory(base@, *limits, subtree@);
    }
    if limits.memory_bytes.is_none() {
        return Ok(());
    }
    let words = fields(subtree, Separator::WhiteSpace);
    let ghost all = fields_of(subtree@, Separator::WhiteSpace);
    for i in 0..words.len()
        invariant
            all == crate::text::contents(words@),
            all == fields_of(subtree@, Separator::WhiteSpace),
            forall|j: int| 0 <= j < i ==> #[trigger] all[j] != "memory"@,
    {
        assert(all[i as int] == words@[i as int]@);
        if same(words[i], "memory") {
            proof {
                law_memory_limit_needs_the_word_memory(base@, *limits, subtree@);
            }
            return Ok(());
        }
    }
    let mut explanation = "resource: the 'memory' controller is not delegated to ".to_owned();
    explanation.append(base);
    explanation.append(" (cgroup.subtree_control = '");
    explanation.append(trim(subtree));
    explanation.append("'); cannot enforce --memory");
    Err(NonoError::SandboxInit(explanation))
}

/// The segments up to `marker` are those before its first occurrence, and itself;
/// there are such segments exactly where `marker` occurs.
proof fn lemma_up_to(segments: Seq<Seq<char>>, marker: Seq<char>)
    ensures
        up_to(segments, marker) is Some <==> segments.contains(marker),
        up_to(segments, marker) matches Some(found) ==> {
            &&& 0 < found.len() <= segments.len()
            &&& found == segments.take(found.len() as int)
            &&& found.last() == marker
            &&& forall|j: int| 0 <= j < found.len() - 1 ==> #[trigger] segments[j] != marker
        },
    decreases segments.len(),
{
    if segments.len() > 0 {
        let front = segments.drop_last();
        lemma_up_to(front, marker);
        match up_to(front, marker) {
            Some(found) => {
                assert(front.take(found.len() as int) == segments.take(found.len() as int));
                let j = choose|j: int| 0 <= j < front.len() && front[j] == marker;
                assert(segments[j] == marker);
                assert forall|j: int| 0 <= j < found.len() - 1 implies #[trigger] segments[j]
                    != marker by {
                    assert(front[j] == segments[j]);
                }
            },
            None => {
                assert forall|j: int| 0 <= j < front.len() implies #[trigger] segments[j]
                    != marker by {
                    assert(front[j] == segments[j]);
                }
                if segments.last() == marker {
                    assert(segments[segments.len() - 1] == marker);
                    assert(segments.take(segments.len() as int) == segments);
                }
            },
        }
    }
}

/// The delegated directory is the mount point followed by the segments of the
/// path, each behind a slash, down to the first that is the user's marker; that
/// one is the last, and nothing below it is kept.
pub proof fn law_base_stops_at_the_first_marker(rel: Seq<char>, uid: u32) -> (k: int)
    requires
        base_in(rel, uid) is Ok,
    ensures
        ({
            let segments = fields_of(rel, Separator::Char('/'));
            &&& 0 <= k < segments.len()
            &&& segments[k] == marker_of(uid)
            &&& forall|j: int| 0 <= j < k ==> #[trigger] segments[j] != marker_of(uid)
            &&& base_in(rel, uid)->Ok_0 == "/sys/fs/cgroup"@ + slashed(segments.take(k + 1))
        }),
{
    let segments = fields_of(rel, Separator::Char('/'));
    lemma_up_to(segments, marker_of(uid));
    let found = up_to(segments, marker_of(uid))->Some_0;
    assert forall|j: int| 0 <= j < found.len() implies (#[trigger] found[j]).len() > 0 by {
        law_fields_hold_no_separator(rel, Separator::Char('/'), j);
    }
    assert forall|j: int, i: int| 0 <= j < found.len() && 0 <= i < found[j].len() implies
        #[trigger] found[j][i] != '/' by {
        law_fields_hold_no_separator(rel, Separator::Char('/'), j);
        assert(found[j] == segments[j]);
    }
    reveal_strlit("/sys/fs/cgroup");
    law_descend_appends("/sys/fs/cgroup"@, found);
    found.len() - 1
}

/// A directory is found exactly where there is a `0::` line and the user's marker
/// is a whole segment of the path in it. A segment that merely starts with the
/// marker, ends in it or holds it does not count.
pub proof fn law_marker_must_be_a_whole_segment(membership: Seq<char>, uid: u32)
    ensures
        delegated_base_of(membership, uid) is Ok <==> (unified_entry(
            lines_of(membership),
        ) matches Some(entry) && exists|a: int, b: int| #[trigger]
            delimited(trim_of(entry), Separator::Char('/'), a, b) && trim_of(entry).subrange(a, b)
                == marker_of(uid)),
{
    if let Some(entry) = unified_entry(lines_of(membership)) {
        let rel = trim_of(entry);
        lemma_up_to(fields_of(rel, Separator::Char('/')), marker_of(uid));
        law_fields_are_whole_pieces(rel, Separator::Char('/'), marker_of(uid));
        reveal_strlit("user@");
    }
}

/// Whatever lies below the marker, be it nothing but a trailing slash, does not
/// change the directory.
pub proof fn law_descendants_are_discarded(rel: Seq<char>, below: Seq<char>, uid: u32)
    requires
        base_in(rel, uid) is Ok,
    ensures
        base_in(rel.push('/') + below, uid) == base_in(rel, uid),
{
    let sep = Separator::Char('/');
    law_fields_at_separator(rel, sep, '/', below);
    let segments = fields_of(rel, sep);
    let more = fields_of(rel.push('/') + below, sep);
    assert(more.take(segments.len() as int) == segments);
    lemma_up_to_settled(more, marker_of(uid), segments.len() as int);
}

/// A line that does not start with `0::` is passed over.
pub proof fn law_other_hierarchies_are_passed_over(line: Seq<char>, rest: Seq<char>, uid: u32)
    requires
        !line.contains('\n'),
        !"0::"@.is_prefix_of(line),
    ensures
        delegated_base_of(line.push('\n') + rest, uid) == delegated_base_of(rest, uid),
{
    law_lines_at_line_feed(line, rest);
    let all = lines_of(line.push('\n') + rest);
    assert(all[0] == without_cr(line));
    assert(!"0::"@.is_prefix_of(without_cr(line))) by {
        if "0::"@.is_prefix_of(without_cr(line)) {
            assert(without_cr(line).take("0::"@.len() as int) == line.take("0::"@.len() as int));
            assert("0::"@.is_prefix_of(line));
        }
    }
    assert(all.drop_first() == lines_of(rest));
}

/// A first line that starts with `0::` decides alone: what follows it is not read.
pub proof fn law_first_unified_line_decides(entry: Seq<char>, rest: Seq<char>, uid: u32)
    requires
        !entry.contains('\n'),
    ensures
        delegated_base_of(("0::"@ + entry).push('\n') + rest, uid) == base_in(
            trim_of(entry),
            uid,
        ),
{
    let line = "0::"@ + entry;
    reveal_strlit("0::");
    assert(!line.contains('\n')) by {
        if line.contains('\n') {
            let i = choose|i: int| 0 <= i < line.len() && line[i] == '\n';
            assert(entry[i - 3] == '\n');
        }
    }
    law_lines_at_line_feed(line, rest);
    let all = lines_of(line.push('\n') + rest);
    assert(all[0] == without_cr(line));
    if entry.len() > 0 && entry.last() == '\r' {
        assert(without_cr(line) == "0::"@ + entry.drop_last());
        assert(without_cr(line).skip(3) == entry.drop_last());
        law_trim_ignores_end(entry);
    } else {
        assert(without_cr(line) == line);
        assert(line.skip(3) == entry);
    }
}

/// Two users never have the same marker.
pub proof fn law_markers_differ(a: u32, b: u32)
    requires
        marker_of(a) == marker_of(b),
    ensures
        a == b,
{
    let x = decimal(a as nat);
    let y = decimal(b as nat);
    let head = "user@"@;
    let tail = ".service"@;
    assert(x.len() == y.len()) by {
        assert(marker_of(a).len() == head.len() + x.len() + tail.len());
        assert(marker_of(b).len() == head.len() + y.len() + tail.len());
    }
    assert(x == marker_of(a).subrange(head.len() as int, (head.len() + x.len()) as int));
    assert(y == marker_of(b).subrange(head.len() as int, (head.len() + y.len()) as int));
    law_decimal_is_injective(a as nat, b as nat);
}

proof fn lemma_marker_holds_no_slash(uid: u32)
    ensures
        !marker_of(uid).contains('/'),
{
    reveal_strlit("user@");
    reveal_strlit(".service");
    law_decimal_is_canonical(uid as nat);
    let n = decimal(uid as nat);
    assert forall|i: int| 0 <= i < marker_of(uid).len() implies marker_of(uid)[i] != '/' by {
        if 5 <= i < 5 + n.len() {
            assert(marker_of(uid)[i] == n[i - 5]);
        }
    }
}

/// No two users are ever given the same directory, whatever the kernel reports to
/// each: a uid that is part of another one borrows nothing from it.
pub proof fn law_users_never_share_a_base(
    membership_a: Seq<char>,
    a: u32,
    membership_b: Seq<char>,
    b: u32,
)
    requires
        delegated_base_of(membership_a, a) is Ok,
        delegated_base_of(membership_a, a) == delegated_base_of(membership_b, b),
    ensures
        a == b,
{
    let rel_a = trim_of(unified_entry(lines_of(membership_a))->Some_0);
    let rel_b = trim_of(unified_entry(lines_of(membership_b))->Some_0);
    let i = law_base_stops_at_the_first_marker(rel_a, a);
    let j = law_base_stops_at_the_first_marker(rel_b, b);
    let sa = fields_of(rel_a, Separator::Char('/')).take(i + 1);
    let sb = fields_of(rel_b, Separator::Char('/')).take(j + 1);
    let root = "/sys/fs/cgroup"@;
    let x = root + slashed(sa.drop_last());
    let y = root + slashed(sb.drop_last());
    reveal_strlit("/");
    assert(root + slashed(sa) =~= x.push('/') + marker_of(a));
    assert(root + slashed(sb) =~= y.push('/') + marker_of(b));
    lemma_marker_holds_no_slash(a);
    lemma_marker_holds_no_slash(b);
    lemma_same_last_name(x, marker_of(a), y, marker_of(b));
    law_markers_differ(a, b);
}

proof fn lemma_same_last_name(x: Seq<char>, m: Seq<char>, y: Seq<char>, n: Seq<char>)
    requires
        x.push('/') + m == y.push('/') + n,
        !m.contains('/'),
        !n.contains('/'),
    ensures
        m == n,
{
    let s = x.push('/') + m;
    let r = y.push('/') + n;
    assert(s.len() == x.len() + 1 + m.len() && r.len() == y.len() + 1 + n.len());
    assert(s[x.len() as int] == '/');
    assert(r[y.len() as int] == '/');
    if x.len() < y.len() {
        assert(m[y.len() - x.len() - 1] == s[y.len() as int]);
    } else if y.len() < x.len() {
        assert(n[x.len() - y.len() - 1] == r[x.len() as int]);
    }
    assert(m == s.skip(x.len() as int + 1));
    assert(n == s.skip(y.len() as int + 1));
}

/// A memory limit is accepted exactly where `memory` stands among the controllers
/// as a word of its own; without one nothing is asked of them.
pub proof fn law_memory_must_be_a_whole_word(
    base: Seq<char>,
    limits: ResourceLimits,
    subtree: Seq<char>,
)
    ensures
        controllers_verdict(base, limits, subtree) is Ok <==> limits.memory_bytes is None || (
        exists|a: int, b: int| #[trigger]
            delimited(subtree, Separator::WhiteSpace, a, b) && subtree.subrange(a, b)
                == "memory"@),
{
    law_fields_are_whole_pieces(subtree, Separator::WhiteSpace, "memory"@);
    reveal_strlit("memory");
}

/// Whether `name` is what systemd calls the cgroup that it delegates to user `uid`:
/// `user@`, the uid in decimal, and `.service`.
pub open spec fn is_user_service(name: Seq<char>, uid: u32) -> bool {
    &&& name.len() > 13
    &&& name.take(5) == seq!['u', 's', 'e', 'r', '@']
    &&& name.skip(name.len() - 8) == seq!['.', 's', 'e', 'r', 'v', 'i', 'c', 'e']
    &&& denotes(name.subrange(5, name.len() - 8), uid as int)
}

/// Whether the characters of `path` from `a` up to `b` are one segment of it:
/// without a slash, and between two of them or an end of the path.
pub open spec fn is_segment(path: Seq<char>, a: int, b: int) -> bool {
    &&& 0 <= a < b <= path.len()
    &&& forall|i: int| a <= i < b ==> #[trigger] path[i] != '/'
    &&& a == 0 || path[a - 1] == '/'
    &&& b == path.len() || path[b] == '/'
}

/// Whether the segment of `path` from `a` up to `b` is the cgroup of user `uid`.
pub open spec fn names_user(path: Seq<char>, a: int, b: int, uid: u32) -> bool {
    is_segment(path, a, b) && is_user_service(path.subrange(a, b), uid)
}

/// Whether `directory` is below the cgroup mount point and its last segment is the
/// cgroup of user `uid`.
pub open spec fn is_users_directory(directory: Seq<char>, uid: u32) -> bool {
    &&& directory.len() > 15
    &&& directory.take(15) == seq![
        '/',
        's',
        'y',
        's',
        '/',
        'f',
        's',
        '/',
        'c',
        'g',
        'r',
        'o',
        'u',
        'p',
        '/',
    ]
    &&& exists|a: int| 15 <= a && #[trigger] names_user(directory, a, directory.len() as int, uid)
}

/// A user's marker is `user@`, the uid in decimal and `.service`, and nothing else
/// is.
pub proof fn law_marker_spells_the_uid(name: Seq<char>, uid: u32)
    ensures
        is_user_service(name, uid) <==> name == marker_of(uid),
{
    reveal_strlit("user@");
    reveal_strlit(".service");
    let n = decimal(uid as nat);
    let m = marker_of(uid);
    law_decimal_denotes(uid as nat);
    assert(m.take(5) =~= seq!['u', 's', 'e', 'r', '@']);
    assert(m.skip(m.len() - 8) =~= seq!['.', 's', 'e', 'r', 'v', 'i', 'c', 'e']);
    assert(m.subrange(5, m.len() - 8) =~= n);
    if is_user_service(name, uid) {
        let middle = name.subrange(5, name.len() - 8);
        law_numeral_is_unique(middle, uid as nat);
        assert(name =~= name.take(5) + middle + name.skip(name.len() - 8));
        assert(name =~= m);
    }
}

proof fn lemma_segment(path: Seq<char>, a: int, b: int)
    ensures
        is_segment(path, a, b) <==> a < b && delimited(path, Separator::Char('/'), a, b),
{
}

/// A directory is found on a path exactly where one of its segments is the cgroup
/// of the user.
pub proof fn law_found_exactly_where_a_segment_names_the_user(rel: Seq<char>, uid: u32)
    ensures
        base_in(rel, uid) is Ok <==> exists|a: int, b: int| #[trigger] names_user(rel, a, b, uid),
{
    let m = marker_of(uid);
    law_marker_spells_the_uid(m, uid);
    lemma_up_to(fields_of(rel, Separator::Char('/')), m);
    law_fields_are_whole_pieces(rel, Separator::Char('/'), m);
    if base_in(rel, uid) is Ok {
        let (a, b) = choose|a: int, b: int| #[trigger]
            delimited(rel, Separator::Char('/'), a, b) && m == rel.subrange(a, b);
        lemma_segment(rel, a, b);
        assert(names_user(rel, a, b, uid));
    }
    if exists|a: int, b: int| #[trigger] names_user(rel, a, b, uid) {
        let (a, b) = choose|a: int, b: int| #[trigger] names_user(rel, a, b, uid);
        law_marker_spells_the_uid(rel.subrange(a, b), uid);
        lemma_segment(rel, a, b);
        assert(delimited(rel, Separator::Char('/'), a, b) && m == rel.subrange(a, b));
    }
}

/// The directory that is found lies below the mount point, and its last segment is
/// `user@`, the uid in decimal and `.service`: it is the one delegated to the user,
/// not one above or below it.
pub proof fn law_found_directory_is_the_users(membership: Seq<char>, uid: u32)
    requires
        delegated_base_of(membership, uid) is Ok,
    ensures
        is_users_directory(delegated_base_of(membership, uid)->Ok_0, uid),
{
    let rel = trim_of(unified_entry(lines_of(membership))->Some_0);
    let k = law_base_stops_at_the_first_marker(rel, uid);
    let segments = fields_of(rel, Separator::Char('/')).take(k + 1);
    let m = marker_of(uid);
    let root = "/sys/fs/cgroup"@;
    let front = slashed(segments.drop_last());
    let base = delegated_base_of(membership, uid)->Ok_0;
    reveal_strlit("/");
    reveal_strlit("/sys/fs/cgroup");
    assert(base =~= (root + front).push('/') + m);
    law_marker_spells_the_uid(m, uid);
    lemma_marker_holds_no_slash(uid);
    let a = root.len() + front.len() + 1;
    assert(base.subrange(a as int, base.len() as int) =~= m);
    assert forall|i: int| a <= i < base.len() implies #[trigger] base[i] != '/' by {
        assert(m.contains(m[i - a]));
    }
    assert(names_user(base, a as int, base.len() as int, uid));
    lemma_slashed_starts_with_slash(segments.drop_last());
    assert(base[14] == '/');
    assert(base.len() > 15);
    assert(base.take(15) =~= seq![
        '/',
        's',
        'y',
        's',
        '/',
        'f',
        's',
        '/',
        'c',
        'g',
        'r',
        'o',
        'u',
        'p',
        '/',
    ]);
}

proof fn lemma_slashed_starts_with_slash(names: Seq<Seq<char>>)
    ensures
        slashed(names).len() > 0 ==> slashed(names)[0] == '/',
        names.len() == 0 ==> slashed(names).len() == 0,
    decreases names.len(),
{
    reveal_strlit("/");
    if names.len() > 0 {
        lemma_slashed_starts_with_slash(names.drop_last());
    }
}

/// Whether `path` is written the usual way: from the root, with single slashes.
pub open spec fn plain_path(path: Seq<char>) -> bool {
    &&& path.len() > 0
    &&& path[0] == '/'
    &&& forall|i: int| 0 < i < path.len() && path[i - 1] == '/' ==> #[trigger] path[i] != '/'
}

/// The start of the last segment of a plain path that does not end in a slash.
proof fn lemma_last_segment(path: Seq<char>) -> (a: int)
    requires
        plain_path(path),
        path.last() != '/',
    ensures
        0 < a < path.len(),
        path[a - 1] == '/',
        !path.skip(a).contains('/'),
        a > 1 ==> plain_path(path.take(a - 1)) && path.take(a - 1).last() != '/',
        fields_of(path, Separator::Char('/')) == fields_of(path.take(a - 1), Separator::Char('/'))
            + seq![path.skip(a)],
{
    let a = lemma_last_slash(path);
    let q = path.take(a - 1);
    let t = path.skip(a);
    assert(path =~= q.push('/') + t);
    law_fields_between('/', q, t);
    law_fields_between('/', t, q);
    if a > 1 {
        assert(path[a - 1] == '/');
        assert(q.last() == path[a - 2]);
        assert(q.last() != '/') by {
            if path[a - 2] == '/' {
                assert(path[a - 1] != '/');
            }
        }
        assert forall|i: int| 0 < i < q.len() && q[i - 1] == '/' implies #[trigger] q[i] != '/' by {
            assert(q[i] == path[i] && q[i - 1] == path[i - 1]);
        }
    }
    a
}

proof fn lemma_last_slash(path: Seq<char>) -> (a: int)
    requires
        path.len() > 0,
        path[0] == '/',
        path.last() != '/',
    ensures
        0 < a < path.len(),
        path[a - 1] == '/',
        !path.skip(a).contains('/'),
    decreases path.len(),
{
    let front = path.drop_last();
    if front.last() == '/' {
        let a = path.len() - 1;
        assert(path.skip(a) =~= seq![path.last()]);
        a
    } else {
        let a = lemma_last_slash(front);
        assert(path.skip(a) =~= front.skip(a).push(path.last()));
        assert(!path.skip(a).contains('/')) by {
            if path.skip(a).contains('/') {
                let i = choose|i: int| 0 <= i < path.skip(a).len() && path.skip(a)[i] == '/';
                assert(front.skip(a)[i] == '/');
            }
        }
        a
    }
}

/// A plain path that does not end in a slash is its segments, each behind one.
proof fn lemma_plain_path_is_slashed(path: Seq<char>)
    requires
        plain_path(path),
        path.last() != '/',
    ensures
        slashed(fields_of(path, Separator::Char('/'))) == path,
    decreases path.len(),
{
    let a = lemma_last_segment(path);
    let q = path.take(a - 1);
    let t = path.skip(a);
    let sep = Separator::Char('/');
    reveal_strlit("/");
    if a > 1 {
        lemma_plain_path_is_slashed(q);
    } else {
        assert(q =~= Seq::<char>::empty());
        law_fields_between('/', q, q);
        assert(slashed(fields_of(q, sep)) =~= q);
    }
    let all = fields_of(path, sep);
    assert(all.drop_last() =~= fields_of(q, sep));
    assert(all.last() == t);
    assert(path =~= q + "/"@ + t);
}

/// Where the first `k + 1` segments of a plain path end.
proof fn lemma_cut(path: Seq<char>, k: int) -> (b: int)
    requires
        plain_path(path),
        0 <= k < fields_of(path, Separator::Char('/')).len(),
    ensures
        0 < b <= path.len(),
        b == path.len() || path[b] == '/',
        plain_path(path.take(b)),
        path.take(b).last() != '/',
        fields_of(path.take(b), Separator::Char('/')) == fields_of(
            path,
            Separator::Char('/'),
        ).take(k + 1),
    decreases path.len(),
{
    let sep = Separator::Char('/');
    let all = fields_of(path, sep);
    if path.last() == '/' {
        let q = path.drop_last();
        let e = Seq::<char>::empty();
        assert(path =~= q.push('/') + e);
        law_fields_between('/', q, e);
        law_fields_between('/', e, e);
        assert(fields_of(q, sep) =~= all);
        if q.len() == 0 {
            assert(q =~= e);
            assert(false);
        }
        assert forall|i: int| 0 < i < q.len() && q[i - 1] == '/' implies #[trigger] q[i] != '/' by {
            assert(q[i] == path[i] && q[i - 1] == path[i - 1]);
        }
        let b = lemma_cut(q, k);
        assert(q.take(b) =~= path.take(b));
        b
    } else {
        let a = lemma_last_segment(path);
        let q = path.take(a - 1);
        if k == all.len() - 1 {
            assert(path.take(path.len() as int) =~= path);
            assert(all.take(k + 1) =~= all);
            path.len() as int
        } else {
            if a == 1 {
                let e = Seq::<char>::empty();
                assert(q =~= e);
                law_fields_between('/', e, e);
                assert(false);
            }
            assert(all =~= fields_of(q, sep).push(path.skip(a)));
            let b = lemma_cut(q, k);
            assert(q.take(b) =~= path.take(b));
            assert(fields_of(q, sep).take(k + 1) =~= all.take(k + 1));
            b
        }
    }
}

proof fn lemma_earlier_segment_is_earlier_field(
    rel: Seq<char>,
    uid: u32,
    a: int,
    b: int,
    s: int,
    e: int,
)
    requires
        is_segment(rel, s, e),
        s > 0,
        names_user(rel, a, b, uid),
        b < e,
    ensures
        fields_of(rel.take(e).take(s - 1), Separator::Char('/')).contains(marker_of(uid)),
{
    let q = rel.take(e).take(s - 1);
    let m = marker_of(uid);
    assert(b < s) by {
        if b >= s {
            assert(rel[b] != '/');
        }
    }
    law_marker_spells_the_uid(rel.subrange(a, b), uid);
    assert(q.subrange(a, b) =~= rel.subrange(a, b));
    assert forall|i: int| a <= i < b implies #[trigger] q[i] != '/' by {
        assert(q[i] == rel[i]);
    }
    lemma_segment(q, a, b);
    law_fields_are_whole_pieces(q, Separator::Char('/'), m);
    assert(delimited(q, Separator::Char('/'), a, b) && m == q.subrange(a, b));
}

/// On a path that is written the usual way, the directory that is found is the
/// mount point followed by that very path, cut off behind the first of its segments
/// that is the cgroup of the user.
pub proof fn law_found_directory_is_the_path_cut_off(rel: Seq<char>, uid: u32) -> (range: (
    int,
    int,
))
    requires
        plain_path(rel),
        base_in(rel, uid) is Ok,
    ensures
        names_user(rel, range.0, range.1, uid),
        forall|a: int, b: int| #[trigger] names_user(rel, a, b, uid) ==> range.1 <= b,
        base_in(rel, uid)->Ok_0 == "/sys/fs/cgroup"@ + rel.take(range.1),
{
    let sep = Separator::Char('/');
    let all = fields_of(rel, sep);
    let m = marker_of(uid);
    let k = law_base_stops_at_the_first_marker(rel, uid);
    let e = lemma_cut(rel, k);
    let p = rel.take(e);
    lemma_plain_path_is_slashed(p);
    let s = lemma_last_segment(p);
    assert(fields_of(p, sep).last() == p.skip(s));
    assert(fields_of(p, sep).last() == m);
    law_marker_spells_the_uid(m, uid);
    assert(rel.subrange(s, e) =~= p.skip(s));
    assert forall|i: int| s <= i < e implies #[trigger] rel[i] != '/' by {
        assert(p.skip(s)[i - s] == rel[i]);
        assert(p.skip(s).contains(p.skip(s)[i - s]));
    }
    assert(rel[s - 1] == p[s - 1]);
    assert(names_user(rel, s, e, uid));
    assert forall|a: int, b: int| #[trigger] names_user(rel, a, b, uid) implies e <= b by {
        if b < e {
            lemma_earlier_segment_is_earlier_field(rel, uid, a, b, s, e);
            let q = p.take(s - 1);
            let j = choose|j: int| 0 <= j < fields_of(q, sep).len() && fields_of(q, sep)[j] == m;
            assert(fields_of(p, sep)[j] == m);
            assert(all.take(k + 1)[j] == all[j]);
        }
    }
    (s, e)
}

/// A path may start without a slash, and slashes may be repeated: the directory
/// that is found is the same.
pub proof fn law_extra_slashes_do_not_matter(head: Seq<char>, tail: Seq<char>, uid: u32)
    ensures
        base_in(head.push('/').push('/') + tail, uid) is Ok <==> base_in(
            head.push('/') + tail,
            uid,
        ) is Ok,
        base_in(head.push('/') + tail, uid) is Ok ==> base_in(
            head.push('/').push('/') + tail,
            uid,
        ) == base_in(head.push('/') + tail, uid),
        base_in(seq!['/'] + tail, uid) is Ok <==> base_in(tail, uid) is Ok,
        base_in(tail, uid) is Ok ==> base_in(seq!['/'] + tail, uid) == base_in(tail, uid),
{
    let e = Seq::<char>::empty();
    let sep = Separator::Char('/');
    law_fields_between('/', head, tail);
    law_fields_between('/', head.push('/'), tail);
    law_fields_between('/', head, e);
    law_fields_between('/', e, tail);
    assert(head.push('/') + e =~= head.push('/'));
    assert(e.push('/') + tail =~= seq!['/'] + tail);
    assert(fields_of(head.push('/').push('/') + tail, sep) =~= fields_of(
        head.push('/') + tail,
        sep,
    ));
    assert(fields_of(seq!['/'] + tail, sep) =~= fields_of(tail, sep));
}

/// Where no segment of the path is the cgroup of the user, the explanation names
/// that cgroup and quotes the path.
pub proof fn law_missing_delegation_is_explained(rel: Seq<char>, uid: u32) -> (name: Seq<char>)
    requires
        base_in(rel, uid) is Err,
    ensures
        is_user_service(name, uid),
        base_in(rel, uid)->Err_0
            == "resource: no delegated cgroup v2 subtree for this session (expected a '"@ + name
            + "' ancestor in '"@ + rel
            + "'); resource limits require a delegated user session (systemd Delegate=yes)"@,
{
    law_marker_spells_the_uid(marker_of(uid), uid);
    marker_of(uid)
}

/// A text without a line feed is decided by itself: by the path behind its `0::`,
/// or, where it does not start so, as no unified hierarchy. With what is said of
/// a first line, this covers every text, line by line.
pub proof fn law_last_line_decides_alone(line: Seq<char>, uid: u32)
    requires
        !line.contains('\n'),
    ensures
        line.len() >= 3 && line.take(3) == seq!['0', ':', ':'] ==> delegated_base_of(line, uid)
            == base_in(trim_of(line.skip(3)), uid),
        !(line.len() >= 3 && line.take(3) == seq!['0', ':', ':']) ==> delegated_base_of(line, uid)
            == Err::<Seq<char>, Seq<char>>(
            "resource: not a unified cgroup v2 hierarchy (no '0::' line in /proc/self/cgroup); cgroup resource limits are unavailable"@,
        ),
{
    law_line_endings(line, Seq::empty());
    reveal_strlit("0::");
    assert("0::"@ =~= seq!['0', ':', ':']);
    let all = lines_of(line);
    if line.len() > 0 {
        assert(all[0] == line);
        assert(all.drop_first() =~= Seq::<Seq<char>>::empty());
    }
    assert(unified_entry(Seq::empty()) is None);
    if line.len() >= 3 {
        assert("0::"@.is_prefix_of(line) <==> line.take(3) =~= "0::"@);
    }
}

/// A text is decided by its first line where that starts with `0::`, and by what
/// follows it otherwise.
pub proof fn law_first_line_decides_or_is_passed_over(line: Seq<char>, rest: Seq<char>, uid: u32)
    requires
        !line.contains('\n'),
    ensures
        line.len() >= 3 && line.take(3) == seq!['0', ':', ':'] ==> delegated_base_of(
            line.push('\n') + rest,
            uid,
        ) == base_in(trim_of(line.skip(3)), uid),
        !(line.len() >= 3 && line.take(3) == seq!['0', ':', ':']) ==> delegated_base_of(
            line.push('\n') + rest,
            uid,
        ) == delegated_base_of(rest, uid),
{
    reveal_strlit("0::");
    assert("0::"@ =~= seq!['0', ':', ':']);
    if line.len() >= 3 && line.take(3) == seq!['0', ':', ':'] {
        let entry = line.skip(3);
        assert(!entry.contains('\n')) by {
            if entry.contains('\n') {
                let i = choose|i: int| 0 <= i < entry.len() && entry[i] == '\n';
                assert(line[i + 3] == '\n');
            }
        }
        assert(line =~= "0::"@ + entry);
        law_first_unified_line_decides(entry, rest, uid);
    } else {
        assert(!"0::"@.is_prefix_of(line)) by {
            if "0::"@.is_prefix_of(line) {
                assert(line.take(3) =~= "0::"@);
            }
        }
        law_other_hierarchies_are_passed_over(line, rest, uid);
    }
}

/// Whether the characters of `text` from `a` up to `b` are a word of it: no white
/// space among them, and white space or an end of the text on either side.
pub open spec fn is_word(text: Seq<char>, a: int, b: int) -> bool {
    &&& 0 <= a < b <= text.len()
    &&& forall|i: int| a <= i < b ==> !white_space(#[trigger] text[i])
    &&& a == 0 || white_space(text[a - 1])
    &&& b == text.len() || white_space(text[b])
}

/// The controllers are refused exactly where memory is limited and `memory` is not
/// a word among them; the explanation then names the directory and quotes them.
pub proof fn law_memory_limit_needs_the_word_memory(
    base: Seq<char>,
    limits: ResourceLimits,
    subtree: Seq<char>,
)
    ensures
        controllers_verdict(base, limits, subtree) is Err <==> limits.memory_bytes is Some && !(
        exists|a: int, b: int| #[trigger]
            is_word(subtree, a, b) && subtree.subrange(a, b) == seq!['m', 'e', 'm', 'o', 'r', 'y']),
        controllers_verdict(base, limits, subtree) matches Err(error) ==> error
            == "resource: the 'memory' controller is not delegated to "@ + base
            + " (cgroup.subtree_control = '"@ + trim_of(subtree) + "'); cannot enforce --memory"@,
{
    law_memory_must_be_a_whole_word(base, limits, subtree);
    reveal_strlit("memory");
    assert("memory"@ =~= seq!['m', 'e', 'm', 'o', 'r', 'y']);
    let sep = Separator::WhiteSpace;
    if exists|a: int, b: int| #[trigger]
        delimited(subtree, sep, a, b) && subtree.subrange(a, b) == "memory"@ {
        let (a, b) = choose|a: int, b: int| #[trigger]
            delimited(subtree, sep, a, b) && subtree.subrange(a, b) == "memory"@;
        lemma_word(subtree, a, b);
        assert(is_word(subtree, a, b));
    }
    if exists|a: int, b: int| #[trigger]
        is_word(subtree, a, b) && subtree.subrange(a, b) == "memory"@ {
        let (a, b) = choose|a: int, b: int| #[trigger]
            is_word(subtree, a, b) && subtree.subrange(a, b) == "memory"@;
        lemma_word(subtree, a, b);
        assert(delimited(subtree, sep, a, b));
    }
}

proof fn lemma_word(text: Seq<char>, a: int, b: int)
    ensures
        is_word(text, a, b) <==> a < b && delimited(text, Separator::WhiteSpace, a, b),
{
    if a < b && delimited(text, Separator::WhiteSpace, a, b) {
        assert forall|i: int| a <= i < b implies !white_space(#[trigger] text[i]) by {
            assert(!Separator::WhiteSpace.separates(text[i]));
        }
    }
    if is_word(text, a, b) {
        assert forall|i: int| a <= i < b implies !Separator::WhiteSpace.separates(
            #[trigger] text[i],
        ) by {
            assert(!white_space(text[i]));
        }
    }
}

} // verus!
