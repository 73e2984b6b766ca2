//! One sandboxed run's resource "box": a cgroup v2 directory that is created, armed
//! with limits, and handed to the child to move into.
//!
//! Everything here happens before the child is forked, and fails closed: a leaf is
//! armed only where each of its knobs was written and its member list is open, and
//! a refusal names the directory that has to be taken down again, where one was
//! created.
use crate::decimal::{
    decimal, decimal_string, decimal_value, denotes, law_decimal_denotes, law_decimal_is_canonical,
};
use crate::delegation::{
    controllers_verdict, delegated_base_of, ensure_controllers_delegated, is_users_directory,
    law_found_directory_is_the_users, names_user, parse_delegated_base, ResourceLimits,
};
use crate::error::NonoError;
use crate::path::{join, join_of, law_join};
use crate::process::{ask_current_uid, is_current_uid};
use crate::request::{said, Reply, ReplyModel, Request, RequestModel};
use crate::teardown::{killing, law_teardown_kills_then_removes};
use vstd::prelude::*;

verus! {

/// One limit: the name of the file in the leaf that sets it, and what to write
/// there.
#[derive(Debug, PartialEq, Eq)]
pub struct Knob {
    pub name: String,
    pub value: String,
}

/// A knob, with its texts as sequences of characters.
pub struct KnobModel {
    pub name: Seq<char>,
    pub value: Seq<char>,
}

impl View for Knob {
    type V = KnobModel;

    open spec fn view(&self) -> KnobModel {
        KnobModel { name: self.name@, value: self.value@ }
    }
}

/// What the knobs of a list hold.
pub open spec fn settings(knobs: Seq<Knob>) -> Seq<KnobModel> {
    knobs.map_values(|knob: Knob| knob@)
}

/// The knobs that `limits` asks for, in the order in which they are written: the
/// swap escape hatch is shut before the ceiling is set, and last, running out of
/// memory is made to take down the whole box.
pub open spec fn knobs_of(limits: ResourceLimits) -> Seq<KnobModel> {
    match limits.memory_bytes {
        Some(max) => seq![
            KnobModel { name: "memory.swap.max"@, value: "0"@ },
            KnobModel { name: "memory.max"@, value: decimal(max as nat) },
            KnobModel { name: "memory.oom.group"@, value: "1"@ },
        ],
        None => Seq::empty(),
    }
}

fn knob(name: &str, value: &str) -> (made: Knob)
    ensures
        made@ == (KnobModel { name: name@, value: value@ }),
{
    Knob { name: name.to_owned(), value: value.to_owned() }
}

/// Returns the knobs that `limits` asks for, in the order in which to write them.
pub fn knobs(limits: &ResourceLimits) -> (list: Vec<Knob>)
    ensures
        settings(list@) == knobs_of(*limits),
        limits.memory_bytes is None ==> list@.len() == 0,
        limits.memory_bytes matches Some(max) ==> {
            &&& list@.len() == 3
            &&& list@[0].name@ == "memory.swap.max"@ && list@[0].value@ == "0"@
            &&& list@[1].name@ == "memory.max"@ && denotes(list@[1].value@, max as int)
            &&& list@[2].name@ == "memory.oom.group"@ && list@[2].value@ == "1"@
        },
{
    let mut list: Vec<Knob> = Vec::new();
    if let Some(max) = limits.memory_bytes {
        // Forbid the swap escape hatch first, then set the ceiling itself.
        list.push(knob("memory.swap.max", "0"));
        list.push(knob("memory.max", decimal_string(max).as_str()));
        // On OOM, take down the whole box together rather than letting the
        // kernel pick one member to sacrifice.
        list.push(knob("memory.oom.group", "1"));
        // No memory.high on purpose: with swap forbidden it stalls a runaway
        // allocator instead of killing it.
    }
    assert(settings(list@) =~= knobs_of(*limits));
    list
}

/// The name of the leaf of process `pid`.
pub open spec fn leaf_name(pid: u32) -> Seq<char> {
    "nono."@ + decimal(pid as nat)
}

/// What the creation of a leaf waits for.
enum LeafPhase {
    ReadingMembership,
    ProbingBase { base: String },
    ReadingControllers { base: String },
    CreatingLeaf { path: String },
    WritingKnob { path: String, knob: Knob, rest: Vec<Knob> },
    OpeningProcs { path: String },
}

/// What the creation of a leaf waits for, over models.
pub enum LeafPhaseModel {
    /// The membership of the process, that is what `/proc/self/cgroup` holds.
    ReadingMembership,
    /// Whether the delegated directory exists.
    ProbingBase { base: Seq<char> },
    /// The controllers that the delegated directory hands on.
    ReadingControllers { base: Seq<char> },
    /// The creation of the directory.
    CreatingLeaf { path: Seq<char> },
    /// The writing of `knob`, after which those in `rest` follow.
    WritingKnob { path: Seq<char>, knob: KnobModel, rest: Seq<KnobModel> },
    /// The opening of the member list.
    OpeningProcs { path: Seq<char> },
}

/// A leaf in the making: a cgroup v2 directory that is found a place, created, and
/// armed with the limits of one run.
pub struct CgroupLeaf {
    limits: ResourceLimits,
    uid: u32,
    pid: u32,
    phase: LeafPhase,
}

/// A leaf in the making, over models.
pub struct LeafModel {
    pub limits: ResourceLimits,
    pub uid: u32,
    pub pid: u32,
    pub phase: LeafPhaseModel,
}

impl View for LeafPhase {
    type V = LeafPhaseModel;

    closed spec fn view(&self) -> LeafPhaseModel {
        match self {
            LeafPhase::ReadingMembership => LeafPhaseModel::ReadingMembership,
            LeafPhase::ProbingBase { base } => LeafPhaseModel::ProbingBase { base: base@ },
            LeafPhase::ReadingControllers { base } => LeafPhaseModel::ReadingControllers {
                base: base@,
            },
            LeafPhase::CreatingLeaf { path } => LeafPhaseModel::CreatingLeaf { path: path@ },
            LeafPhase::WritingKnob { path, knob, rest } => LeafPhaseModel::WritingKnob {
                path: path@,
                knob: knob@,
                rest: settings(rest@),
            },
            LeafPhase::OpeningProcs { path } => LeafPhaseModel::OpeningProcs { path: path@ },
        }
    }
}

impl View for CgroupLeaf {
    type V = LeafModel;

    closed spec fn view(&self) -> LeafModel {
        LeafModel { limits: self.limits, uid: self.uid, pid: self.pid, phase: self.phase@ }
    }
}

/// Where the creation of a leaf stands.
pub enum LeafStep {
    /// `request` is to be performed and its reply handed to `leaf`.
    Perform { leaf: CgroupLeaf, request: Request },
    /// The leaf at `path` is armed, and its member list is open.
    Armed { path: String },
    /// The run is refused. Where `leftover` names a directory, it was created for
    /// this leaf and is to be torn down before `error` is reported.
    Refused { leftover: Option<String>, error: NonoError },
}

/// Where the creation of a leaf stands, over models.
pub enum LeafStepModel {
    Perform { leaf: LeafModel, request: RequestModel },
    Armed { path: Seq<char> },
    Refused { leftover: Option<Seq<char>>, error: Seq<char> },
}

impl View for LeafStep {
    type V = LeafStepModel;

    open spec fn view(&self) -> LeafStepModel {
        match self {
            LeafStep::Perform { leaf, request } => LeafStepModel::Perform {
                leaf: leaf@,
                request: request@,
            },
            LeafStep::Armed { path } => LeafStepModel::Armed { path: path@ },
            LeafStep::Refused { leftover, error } => LeafStepModel::Refused {
                leftover: match leftover {
                    Some(path) => Some(path@),
                    None => None,
                },
                error: error@,
            },
        }
    }
}

/// The explanation where the membership cannot be read.
pub open spec fn membership_unreadable(cause: Seq<char>) -> Seq<char> {
    "resource: cannot read /proc/self/cgroup: "@ + cause
}

/// The explanation where the delegated directory is missing.
pub open spec fn base_missing(base: Seq<char>) -> Seq<char> {
    "resource: delegated cgroup path "@ + base + " does not exist"@
}

/// The explanation where the list of controllers cannot be read.
pub open spec fn controllers_unreadable(path: Seq<char>, cause: Seq<char>) -> Seq<char> {
    "resource: cannot read "@ + path + " ("@ + cause + ")"@
}

/// The explanation where the directory cannot be created.
pub open spec fn leaf_not_created(path: Seq<char>, cause: Seq<char>) -> Seq<char> {
    "resource: failed to create cgroup leaf "@ + path + ": "@ + cause
}

/// The explanation where a knob cannot be written.
pub open spec fn knob_not_written(path: Seq<char>, value: Seq<char>, cause: Seq<char>) -> Seq<
    char,
> {
    "resource: failed to write '"@ + value + "' to "@ + path + " ("@ + cause
        + "); is the cgroup v2 controller delegated?"@
}

/// The explanation where the member list cannot be opened.
pub open spec fn procs_not_opened(path: Seq<char>, cause: Seq<char>) -> Seq<char> {
    "resource: failed to open "@ + path + " for self-attach ("@ + cause + ")"@
}

/// Asking for the membership of the process, as every creation begins.
pub open spec fn beginning(limits: ResourceLimits, uid: u32, pid: u32) -> LeafStepModel {
    LeafStepModel::Perform {
        leaf: LeafModel { limits, uid, pid, phase: LeafPhaseModel::ReadingMembership },
        request: RequestModel::Read { path: "/proc/self/cgroup"@ },
    }
}

/// The refusal of a run for which nothing was created.
pub open spec fn refusal(error: Seq<char>) -> LeafStepModel {
    LeafStepModel::Refused { leftover: None, error }
}

/// The refusal of a run for which the directory `path` was created.
pub open spec fn refusal_after(path: Seq<char>, error: Seq<char>) -> LeafStepModel {
    LeafStepModel::Refused { leftover: Some(path), error }
}

/// Asking for the first of the knobs `todo` to be written, or, where none is left,
/// for the member list to be opened.
pub open spec fn arming(
    limits: ResourceLimits,
    uid: u32,
    pid: u32,
    path: Seq<char>,
    todo: Seq<KnobModel>,
) -> LeafStepModel {
    if todo.len() == 0 {
        LeafStepModel::Perform {
            leaf: LeafModel { limits, uid, pid, phase: LeafPhaseModel::OpeningProcs { path } },
            request: RequestModel::OpenForWriting { path: join_of(path, "cgroup.procs"@) },
        }
    } else {
        LeafStepModel::Perform {
            leaf: LeafModel {
                limits,
                uid,
                pid,
                phase: LeafPhaseModel::WritingKnob {
                    path,
                    knob: todo[0],
                    rest: todo.drop_first(),
                },
            },
            request: writing(path, todo[0]),
        }
    }
}

/// Asking for `knob` to be written to the leaf at `path`.
pub open spec fn writing(path: Seq<char>, knob: KnobModel) -> RequestModel {
    RequestModel::Write { path: join_of(path, knob.name), value: knob.value }
}

/// What a reply leads to.
pub open spec fn after(leaf: LeafModel, reply: ReplyModel) -> LeafStepModel {
    match leaf.phase {
        LeafPhaseModel::ReadingMembership => match reply {
            Ok(membership) => match delegated_base_of(membership, leaf.uid) {
                Ok(base) => LeafStepModel::Perform {
                    leaf: LeafModel { phase: LeafPhaseModel::ProbingBase { base }, ..leaf },
                    request: RequestModel::ProbeDir { path: base },
                },
                Err(error) => refusal(error),
            },
            Err(cause) => refusal(membership_unreadable(cause)),
        },
        LeafPhaseModel::ProbingBase { base } => match reply {
            Ok(_) => LeafStepModel::Perform {
                leaf: LeafModel { phase: LeafPhaseModel::ReadingControllers { base }, ..leaf },
                request: RequestModel::Read { path: join_of(base, "cgroup.subtree_control"@) },
            },
            Err(_) => refusal(base_missing(base)),
        },
        LeafPhaseModel::ReadingControllers { base } => match reply {
            Ok(subtree) => match controllers_verdict(base, leaf.limits, subtree) {
                Ok(()) => {
                    let path = join_of(base, leaf_name(leaf.pid));
                    LeafStepModel::Perform {
                        leaf: LeafModel { phase: LeafPhaseModel::CreatingLeaf { path }, ..leaf },
                        request: RequestModel::CreateDir { path },
                    }
                },
                Err(error) => refusal(error),
            },
            Err(cause) => refusal(
                controllers_unreadable(join_of(base, "cgroup.subtree_control"@), cause),
            ),
        },
        LeafPhaseModel::CreatingLeaf { path } => match reply {
            Ok(_) => arming(leaf.limits, leaf.uid, leaf.pid, path, knobs_of(leaf.limits)),
            Err(cause) => refusal(leaf_not_created(path, cause)),
        },
        LeafPhaseModel::WritingKnob { path, knob, rest } => match reply {
            Ok(_) => arming(leaf.limits, leaf.uid, leaf.pid, path, rest),
            Err(cause) => refusal_after(
                path,
                knob_not_written(join_of(path, knob.name), knob.value, cause),
            ),
        },
        LeafPhaseModel::OpeningProcs { path } => match reply {
            Ok(_) => LeafStepModel::Armed { path },
            Err(cause) => refusal_after(
                path,
                procs_not_opened(join_of(path, "cgroup.procs"@), cause),
            ),
        },
    }
}

/// Concatenates four texts.
fn concat4(a: &str, b: &str, c: &str, d: &str) -> (text: String)
    ensures
        text@ == a@ + b@ + c@ + d@,
{
    let mut text = a.to_owned();
    text.append(b);
    text.append(c);
    text.append(d);
    text
}

/// Refuses a run for which nothing was created.
fn refuse(explanation: String) -> (step: LeafStep)
    ensures
        step@ == refusal(explanation@),
{
    LeafStep::Refused { leftover: None, error: NonoError::SandboxInit(explanation) }
}

/// Refuses a run for which the directory `path` was created.
fn refuse_after(path: String, explanation: String) -> (step: LeafStep)
    ensures
        step@ == refusal_after(path@, explanation@),
{
    LeafStep::Refused { leftover: Some(path), error: NonoError::SandboxInit(explanation) }
}

impl CgroupLeaf {
    /// Starts the creation of the leaf of process `pid`, for the user who runs it.
    pub fn create(limits: &ResourceLimits, pid: u32) -> (step: LeafStep)
        ensures
            exists|uid: u32| #[trigger] is_current_uid(uid) && step@ == beginning(*limits, uid, pid),
    {
        CgroupLeaf::create_as(limits, ask_current_uid(), pid)
    }

    /// Starts the creation of the leaf of process `pid` and user `uid`.
    pub fn create_as(limits: &ResourceLimits, uid: u32, pid: u32) -> (step: LeafStep)
        ensures
            step@ == beginning(*limits, uid, pid),
    {
        LeafStep::Perform {
            leaf: CgroupLeaf { limits: *limits, uid, pid, phase: LeafPhase::ReadingMembership },
            request: Request::Read { path: "/proc/self/cgroup".to_owned() },
        }
    }

    /// Takes the reply to the last request and says what comes next.
    pub fn advance(self, reply: Reply) -> (step: LeafStep)
        ensures
            step@ == after(self@, said(reply)),
    {
        let CgroupLeaf { limits, uid, pid, phase } = self;
        match phase {
            LeafPhase::ReadingMembership => match reply {
                Ok(membership) => match parse_delegated_base(membership.as_str(), uid) {
                    Ok(base) => {
                        let request = Request::ProbeDir { path: base.clone() };
                        let phase = LeafPhase::ProbingBase { base };
                        LeafStep::Perform {
                            leaf: CgroupLeaf { limits, uid, pid, phase },
                            request,
                        }
                    },
                    Err(error) => LeafStep::Refused { leftover: None, error },
                },
                Err(cause) => refuse(
                    "resource: cannot read /proc/self/cgroup: ".to_owned().concat(cause.as_str()),
                ),
            },
            LeafPhase::ProbingBase { base } => match reply {
                Ok(_) => {
                    let path = join(base.as_str(), "cgroup.subtree_control");
                    let phase = LeafPhase::ReadingControllers { base };
                    LeafStep::Perform {
                        leaf: CgroupLeaf { limits, uid, pid, phase },
                        request: Request::Read { path },
                    }
                },
                Err(_) => refuse(
                    "resource: delegated cgroup path ".to_owned().concat(base.as_str()).concat(
                        " does not exist",
                    ),
                ),
            },
            LeafPhase::ReadingControllers { base } => match reply {
                Ok(subtree) => {
                    match ensure_controllers_delegated(base.as_str(), &limits, subtree.as_str()) {
                        Ok(()) => {
                            let name = "nono.".to_owned().concat(
                                decimal_string(pid as u64).as_str(),
                            );
                            let path = join(base.as_str(), name.as_str());
                            let request = Request::CreateDir { path: path.clone() };
                            let phase = LeafPhase::CreatingLeaf { path };
                            LeafStep::Perform {
                                leaf: CgroupLeaf { limits, uid, pid, phase },
                                request,
                            }
                        },
                        Err(error) => LeafStep::Refused { leftover: None, error },
                    }
                },
                Err(cause) => {
                    let path = join(base.as_str(), "cgroup.subtree_control");
                    refuse(
                        concat4("resource: cannot read ", path.as_str(), " (", cause.as_str()).concat(
                            ")",
                        ),
                    )
                },
            },
            LeafPhase::CreatingLeaf { path } => match reply {
                Ok(_) => CgroupLeaf::arm(limits, uid, pid, path, knobs(&limits)),
                Err(cause) => refuse(
                    concat4(
                        "resource: failed to create cgroup leaf ",
                        path.as_str(),
                        ": ",
                        cause.as_str(),
                    ),
                ),
            },
            LeafPhase::WritingKnob { path, knob, rest } => match reply {
                Ok(_) => CgroupLeaf::arm(limits, uid, pid, path, rest),
                Err(cause) => {
                    let file = join(path.as_str(), knob.name.as_str());
                    let explanation = concat4(
                        "resource: failed to write '",
                        knob.value.as_str(),
                        "' to ",
                        file.as_str(),
                    ).concat(" (").concat(cause.as_str()).concat(
                        "); is the cgroup v2 controller delegated?",
                    );
                    refuse_after(path, explanation)
                },
            },
            LeafPhase::OpeningProcs { path } => match reply {
                Ok(_) => LeafStep::Armed { path },
                Err(cause) => {
                    let file = join(path.as_str(), "cgroup.procs");
                    let explanation = concat4(
                        "resource: failed to open ",
                        file.as_str(),
                        " for self-attach (",
                        cause.as_str(),
                    ).concat(")");
                    refuse_after(path, explanation)
                },
            },
        }
    }

    /// Asks for the first of the knobs `todo` to be written to the leaf at `path`,
    /// or, where none is left, for its member list to be opened.
    fn arm(limits: ResourceLimits, uid: u32, pid: u32, path: String, todo: Vec<Knob>) -> (step:
        LeafStep)
        ensures
            step@ == arming(limits, uid, pid, path@, settings(todo@)),
    {
        let mut rest = todo;
        if rest.len() == 0 {
            let request = Request::OpenForWriting { path: join(path.as_str(), "cgroup.procs") };
            let phase = LeafPhase::OpeningProcs { path };
            LeafStep::Perform { leaf: CgroupLeaf { limits, uid, pid, phase }, request }
        } else {
            let knob = rest.remove(0);
            assert(settings(rest@) =~= settings(todo@).drop_first());
            let request = Request::Write {
                path: join(path.as_str(), knob.name.as_str()),
                value: knob.value.clone(),
            };
            let phase = LeafPhase::WritingKnob { path, knob, rest };
            LeafStep::Perform { leaf: CgroupLeaf { limits, uid, pid, phase }, request }
        }
    }
}

/// What is asked for, in order, from `step` on, where the replies are `replies`.
pub open spec fn requested(step: LeafStepModel, replies: Seq<ReplyModel>) -> Seq<RequestModel>
    decreases replies.len(),
{
    match step {
        LeafStepModel::Perform { leaf, request } => if replies.len() == 0 {
            seq![request]
        } else {
            seq![request] + requested(after(leaf, replies[0]), replies.drop_first())
        },
        _ => Seq::empty(),
    }
}

/// Where `replies` lead from `step`.
pub open spec fn reached(step: LeafStepModel, replies: Seq<ReplyModel>) -> LeafStepModel
    decreases replies.len(),
{
    match step {
        LeafStepModel::Perform { leaf, .. } => if replies.len() == 0 {
            step
        } else {
            reached(after(leaf, replies[0]), replies.drop_first())
        },
        _ => step,
    }
}

/// The delegated directory of `uid` where the membership is the first of `replies`.
pub open spec fn base_from(replies: Seq<ReplyModel>, uid: u32) -> Seq<char> {
    delegated_base_of(replies[0]->Ok_0, uid)->Ok_0
}

/// The leaf of process `pid` where the membership is the first of `replies`.
pub open spec fn leaf_from(replies: Seq<ReplyModel>, uid: u32, pid: u32) -> Seq<char> {
    join_of(base_from(replies, uid), leaf_name(pid))
}

/// How many replies it takes to create a leaf.
pub open spec fn replies_needed(limits: ResourceLimits) -> nat {
    knobs_of(limits).len() + 5
}

/// Whether `replies` are what a creation needs: as many as it asks for, none of
/// them a failure, a membership that holds a directory delegated to `uid`, and
/// the controllers that `limits` needs.
pub open spec fn all_in_order(limits: ResourceLimits, uid: u32, replies: Seq<ReplyModel>) -> bool {
    &&& replies.len() >= replies_needed(limits)
    &&& forall|i: int| 0 <= i < replies_needed(limits) ==> (#[trigger] replies[i]) is Ok
    &&& delegated_base_of(replies[0]->Ok_0, uid) is Ok
    &&& controllers_verdict(base_from(replies, uid), limits, replies[2]->Ok_0) is Ok
}

/// Everything that is asked for on the way to a leaf at `path` in `base` that is
/// armed with `limits`.
pub open spec fn whole_course(base: Seq<char>, path: Seq<char>, limits: ResourceLimits) -> Seq<
    RequestModel,
> {
    seq![
        RequestModel::Read { path: "/proc/self/cgroup"@ },
        RequestModel::ProbeDir { path: base },
        RequestModel::Read { path: join_of(base, "cgroup.subtree_control"@) },
        RequestModel::CreateDir { path },
    ] + arming_course(path, knobs_of(limits))
}

/// Everything that is asked for once the directory `path` is there, where the knobs
/// `todo` are to be written: each of them, then the member list.
pub open spec fn arming_course(path: Seq<char>, todo: Seq<KnobModel>) -> Seq<RequestModel> {
    todo.map_values(|knob: KnobModel| writing(path, knob)).push(
        RequestModel::OpenForWriting { path: join_of(path, "cgroup.procs"@) },
    )
}

proof fn lemma_arming(
    limits: ResourceLimits,
    uid: u32,
    pid: u32,
    path: Seq<char>,
    todo: Seq<KnobModel>,
    replies: Seq<ReplyModel>,
)
    ensures
        ({
            let step = arming(limits, uid, pid, path, todo);
            let end = reached(step, replies);
            let requests = requested(step, replies);
            &&& end is Armed <==> replies.len() > todo.len() && forall|i: int|
                0 <= i <= todo.len() ==> (#[trigger] replies[i]) is Ok
            &&& end is Armed ==> end == (LeafStepModel::Armed { path })
            &&& end is Refused ==> end->leftover == Some(path)
            &&& replies.len() > todo.len() ==> !(end is Perform)
            &&& requests.len() <= todo.len() + 1
            &&& requests == arming_course(path, todo).take(requests.len() as int)
            &&& end is Armed ==> requests.len() == todo.len() + 1
        }),
    decreases todo.len(),
{
    let step = arming(limits, uid, pid, path, todo);
    let end = reached(step, replies);
    let requests = requested(step, replies);
    let course = arming_course(path, todo);
    assert(course.len() == todo.len() + 1);
    if replies.len() == 0 {
        assert(requests =~= course.take(1));
    } else {
        let later = replies.drop_first();
        let next = after(step->leaf, replies[0]);
        assert(requests == seq![step->request] + requested(next, later));
        assert(end == reached(next, later));
        assert forall|i: int| 0 < i < replies.len() implies later[i - 1] == #[trigger] replies[i] by {
        }
        if replies[0] is Err || todo.len() == 0 {
            assert(requested(next, later) =~= Seq::empty());
            assert(reached(next, later) == next);
            assert(requests =~= course.take(1));
        } else {
            let rest = todo.drop_first();
            lemma_arming(limits, uid, pid, path, rest, later);
            assert(next == arming(limits, uid, pid, path, rest));
            let tail = requested(next, later);
            assert(arming_course(path, rest) =~= course.drop_first());
            assert(requests =~= course.take(requests.len() as int)) by {
                assert(tail =~= course.drop_first().take(tail.len() as int));
            }
            if end is Armed {
                assert forall|i: int| 0 <= i <= todo.len() implies (#[trigger] replies[i]) is Ok by {
                    if i > 0 {
                        assert(later[i - 1] is Ok);
                    }
                }
            }
            if replies.len() > todo.len() && forall|i: int|
                0 <= i <= todo.len() ==> (#[trigger] replies[i]) is Ok {
                assert forall|i: int| 0 <= i <= rest.len() implies (#[trigger] later[i]) is Ok by {
                    assert(replies[i + 1] is Ok);
                }
            }
        }
    }
}

/// A leaf is armed where everything is in order, and only there: each knob was
/// written and the member list opened, and no request failed. What was asked for
/// is then the whole course, in its order, and the leaf lies directly below the
/// delegated directory.
pub proof fn law_armed_exactly_where_all_is_in_order(
    limits: ResourceLimits,
    uid: u32,
    pid: u32,
    replies: Seq<ReplyModel>,
)
    ensures
        reached(beginning(limits, uid, pid), replies) is Armed <==> all_in_order(
            limits,
            uid,
            replies,
        ),
        all_in_order(limits, uid, replies) ==> {
            let path = leaf_from(replies, uid, pid);
            &&& reached(beginning(limits, uid, pid), replies) == (LeafStepModel::Armed { path })
            &&& requested(beginning(limits, uid, pid), replies) == whole_course(
                base_from(replies, uid),
                path,
                limits,
            )
        },
{
    lemma_creation(limits, uid, pid, replies);
}

proof fn lemma_creation(limits: ResourceLimits, uid: u32, pid: u32, replies: Seq<ReplyModel>)
    ensures
        ({
            let start = beginning(limits, uid, pid);
            let end = reached(start, replies);
            let requests = requested(start, replies);
            let path = leaf_from(replies, uid, pid);
            let course = whole_course(base_from(replies, uid), path, limits);
            &&& end is Armed <==> all_in_order(limits, uid, replies)
            &&& end is Armed ==> end == (LeafStepModel::Armed { path }) && requests == course
            &&& requests.len() <= course.len()
            &&& requests == course.take(requests.len() as int)
            &&& end is Refused ==> end->leftover == if replies.len() > 4 && requests.len() > 4 {
                Some(path)
            } else {
                None
            }
            &&& requests.len() > 4 ==> replies[3] is Ok
            &&& end is Refused && requests.len() == 4 ==> replies[3] is Err
            &&& replies.len() >= replies_needed(limits) ==> !(end is Perform)
        }),
{
    let s0 = beginning(limits, uid, pid);
    let base = base_from(replies, uid);
    let path = leaf_from(replies, uid, pid);
    let knobs = knobs_of(limits);
    let course = whole_course(base, path, limits);
    let requests = requested(s0, replies);
    assert(course.len() == replies_needed(limits));
    if replies.len() == 0 {
        assert(requests =~= course.take(1));
    } else {
        let r1 = replies.drop_first();
        let s1 = after(s0->leaf, replies[0]);
        assert(requests == seq![s0->request] + requested(s1, r1));
        assert(reached(s0, replies) == reached(s1, r1));
        if !(s1 is Perform) {
            assert(reached(s1, r1) == s1);
            assert(requests =~= course.take(1));
        } else if r1.len() == 0 {
            assert(reached(s1, r1) == s1);
            assert(requests =~= course.take(2));
        } else {
            let r2 = r1.drop_first();
            let s2 = after(s1->leaf, r1[0]);
            assert(r1[0] == replies[1]);
            assert(requested(s1, r1) == seq![s1->request] + requested(s2, r2));
            assert(reached(s1, r1) == reached(s2, r2));
            if !(s2 is Perform) {
                assert(reached(s2, r2) == s2);
                assert(requests =~= course.take(2));
            } else if r2.len() == 0 {
                assert(reached(s2, r2) == s2);
                assert(requests =~= course.take(3));
            } else {
                let r3 = r2.drop_first();
                let s3 = after(s2->leaf, r2[0]);
                assert(r2[0] == replies[2]);
                assert(requested(s2, r2) == seq![s2->request] + requested(s3, r3));
                assert(reached(s2, r2) == reached(s3, r3));
                if !(s3 is Perform) {
                    assert(reached(s3, r3) == s3);
                    assert(requests =~= course.take(3));
                } else if r3.len() == 0 {
                    assert(reached(s3, r3) == s3);
                    assert(requests =~= course.take(4));
                } else {
                    let r4 = r3.drop_first();
                    let s4 = after(s3->leaf, r3[0]);
                    let tail = requested(s4, r4);
                    assert(r3[0] == replies[3]);
                    assert(requested(s3, r3) == seq![s3->request] + tail);
                    assert(reached(s3, r3) == reached(s4, r4));
                    assert(requests =~= seq![
                        s0->request,
                        s1->request,
                        s2->request,
                        s3->request,
                    ] + tail);
                    assert forall|i: int| 4 <= i < replies.len() implies #[trigger] replies[i]
                        == r4[i - 4] by {}
                    if !(s4 is Perform) {
                        assert(reached(s4, r4) == s4);
                        assert(requests =~= course.take(4));
                    } else {
                        lemma_arming(limits, uid, pid, path, knobs, r4);
                        assert(tail.len() >= 1);
                        assert(requests =~= course.take(requests.len() as int));
                        if reached(s4, r4) is Armed {
                            assert forall|i: int| 0 <= i < replies_needed(limits) implies (
                            #[trigger] replies[i]) is Ok by {
                                if i >= 4 {
                                    assert(r4[i - 4] is Ok);
                                }
                            }
                            assert(requests =~= course);
                        }
                        if all_in_order(limits, uid, replies) {
                            assert forall|i: int| 0 <= i <= knobs.len() implies (
                            #[trigger] r4[i]) is Ok by {
                                assert(replies[i + 4] is Ok);
                            }
                        }
                    }
                }
            }
        }
    }
}

/// A failure of any request refuses the run.
pub proof fn law_any_failure_refuses(
    limits: ResourceLimits,
    uid: u32,
    pid: u32,
    replies: Seq<ReplyModel>,
    i: int,
)
    requires
        0 <= i < replies.len(),
        i < requested(beginning(limits, uid, pid), replies).len(),
        replies[i] is Err,
    ensures
        reached(beginning(limits, uid, pid), replies) is Refused,
{
    lemma_failure_refuses(beginning(limits, uid, pid), replies, i);
}

proof fn lemma_failure_refuses(step: LeafStepModel, replies: Seq<ReplyModel>, i: int)
    requires
        0 <= i < replies.len(),
        i < requested(step, replies).len(),
        replies[i] is Err,
    ensures
        reached(step, replies) is Refused,
    decreases replies.len(),
{
    let next = after(step->leaf, replies[0]);
    let later = replies.drop_first();
    assert(requested(step, replies) == seq![step->request] + requested(next, later));
    if i == 0 {
        assert(next is Refused);
        assert(reached(next, later) == next);
    } else {
        assert(later[i - 1] == replies[i]);
        lemma_failure_refuses(next, later, i - 1);
    }
}

/// A creation ends, armed or refused, once it has had the replies it needs.
pub proof fn law_creation_ends(
    limits: ResourceLimits,
    uid: u32,
    pid: u32,
    replies: Seq<ReplyModel>,
)
    requires
        replies.len() >= replies_needed(limits),
    ensures
        !(reached(beginning(limits, uid, pid), replies) is Perform),
{
    lemma_creation(limits, uid, pid, replies);
}

/// A refusal names a directory exactly where one was created for this run, and
/// names that one. A directory that was there before is never named: its creation
/// failed.
pub proof fn law_refusal_names_what_was_created(
    limits: ResourceLimits,
    uid: u32,
    pid: u32,
    replies: Seq<ReplyModel>,
)
    requires
        reached(beginning(limits, uid, pid), replies) is Refused,
    ensures
        ({
            let requests = requested(beginning(limits, uid, pid), replies);
            let leftover = reached(beginning(limits, uid, pid), replies)->leftover;
            &&& requests.len() <= replies.len()
            &&& forall|i: int, path: Seq<char>|
                0 <= i < requests.len() && requests[i] == (RequestModel::CreateDir { path })
                    && replies[i] is Ok ==> leftover == Some(path)
            &&& leftover matches Some(path) ==> exists|i: int|
                0 <= i < requests.len() && #[trigger] requests[i] == (RequestModel::CreateDir {
                    path,
                }) && replies[i] is Ok
        }),
{
    let start = beginning(limits, uid, pid);
    let requests = requested(start, replies);
    let path = leaf_from(replies, uid, pid);
    let course = whole_course(base_from(replies, uid), path, limits);
    lemma_creation(limits, uid, pid, replies);
    lemma_all_answered(start, replies);
    assert forall|i: int, p: Seq<char>|
        0 <= i < requests.len() && requests[i] == (RequestModel::CreateDir { path: p })
            && replies[i] is Ok implies reached(start, replies)->leftover == Some(p) by {
        assert(requests[i] == course[i]);
        if i >= 4 {
            assert(course[i] == arming_course(path, knobs_of(limits))[i - 4]);
        }
        assert(i == 3);
    }
    if requests.len() > 4 {
        assert(requests[3] == course[3]);
    }
}

proof fn lemma_all_answered(step: LeafStepModel, replies: Seq<ReplyModel>)
    requires
        !(reached(step, replies) is Perform),
    ensures
        requested(step, replies).len() <= replies.len(),
    decreases replies.len(),
{
    if step is Perform {
        let next = after(step->leaf, replies[0]);
        lemma_all_answered(next, replies.drop_first());
    }
}

/// After a refusal, the teardown of what it names, however it goes, asks in the end
/// for the removal of the directory that was created for the run.
pub proof fn law_refused_run_leaves_no_directory(
    limits: ResourceLimits,
    uid: u32,
    pid: u32,
    replies: Seq<ReplyModel>,
    i: int,
    path: Seq<char>,
    teardown_replies: Seq<ReplyModel>,
)
    requires
        reached(beginning(limits, uid, pid), replies) is Refused,
        0 <= i < requested(beginning(limits, uid, pid), replies).len(),
        requested(beginning(limits, uid, pid), replies)[i] == (RequestModel::CreateDir { path }),
        replies[i] is Ok,
        crate::teardown::reached(killing(path), teardown_replies) is Finished,
    ensures
        reached(beginning(limits, uid, pid), replies)->leftover == Some(path),
        crate::teardown::requested(killing(path), teardown_replies).last()
            == (RequestModel::RemoveDir { path }),
{
    law_refusal_names_what_was_created(limits, uid, pid, replies);
    law_teardown_kills_then_removes(path, teardown_replies);
}

/// Nothing is created but the leaf, and nothing is written or opened for writing
/// but one of its knobs and its member list, and those only once it has been
/// created.
pub proof fn law_changes_stay_in_the_leaf(
    limits: ResourceLimits,
    uid: u32,
    pid: u32,
    replies: Seq<ReplyModel>,
    i: int,
)
    requires
        0 <= i < requested(beginning(limits, uid, pid), replies).len(),
    ensures
        ({
            let request = requested(beginning(limits, uid, pid), replies)[i];
            let path = leaf_from(replies, uid, pid);
            match request {
                RequestModel::Read { .. } | RequestModel::ProbeDir { .. } => true,
                RequestModel::CreateDir { path: created } => i == 3 && created == path,
                RequestModel::Write { .. } => replies[3] is Ok && exists|k: int|
                    0 <= k < knobs_of(limits).len() && request == writing(
                        path,
                        #[trigger] knobs_of(limits)[k],
                    ),
                RequestModel::OpenForWriting { path: opened } => replies[3] is Ok && opened
                    == join_of(path, "cgroup.procs"@),
                _ => false,
            }
        }),
{
    let requests = requested(beginning(limits, uid, pid), replies);
    let path = leaf_from(replies, uid, pid);
    let course = whole_course(base_from(replies, uid), path, limits);
    lemma_creation(limits, uid, pid, replies);
    assert(requests[i] == course[i]);
    if i >= 4 {
        assert(course[i] == arming_course(path, knobs_of(limits))[i - 4]);
        if i - 4 < knobs_of(limits).len() {
            assert(course[i] == writing(path, knobs_of(limits)[i - 4]));
        }
    }
}

/// Whenever memory is limited there are three knobs: swap is forbidden first, then
/// the ceiling is set, which reads back as the number of bytes that was asked for,
/// and last the box is made to die as a whole. Each is written once, so nothing
/// lifts the ceiling again. Without a limit there is none.
pub proof fn law_ceiling_is_what_was_asked_for(max: u64)
    ensures
        ({
            let knobs = knobs_of(ResourceLimits { memory_bytes: Some(max) });
            &&& knobs.len() == 3
            &&& knobs[0] == (KnobModel { name: "memory.swap.max"@, value: "0"@ })
            &&& knobs[1].name == "memory.max"@
            &&& denotes(knobs[1].value, max as int)
            &&& decimal_value(knobs[1].value) == max
            &&& knobs[2] == (KnobModel { name: "memory.oom.group"@, value: "1"@ })
        }),
        knobs_of(ResourceLimits { memory_bytes: None }).len() == 0,
{
    law_decimal_denotes(max as nat);
}

/// The softer threshold `memory.high` is never set.
pub proof fn law_memory_high_is_never_set(limits: ResourceLimits, k: int)
    requires
        0 <= k < knobs_of(limits).len(),
    ensures
        knobs_of(limits)[k].name != "memory.high"@,
{
    reveal_strlit("memory.high");
    reveal_strlit("memory.swap.max");
    reveal_strlit("memory.max");
    reveal_strlit("memory.oom.group");
    assert("memory.high"@.len() == 11);
    assert(knobs_of(limits)[k].name.len() != 11);
}

/// Whether `path` is the leaf of process `pid` in `base`: a directory directly below
/// it, named `nono.` and the pid in decimal.
pub open spec fn is_leaf_in(path: Seq<char>, base: Seq<char>, pid: u32) -> bool {
    &&& path.len() > base.len() + 6
    &&& path.take(base.len() as int) == base
    &&& path.subrange(base.len() as int, base.len() as int + 6) == seq!['/', 'n', 'o', 'n', 'o', '.']
    &&& denotes(path.skip(base.len() as int + 6), pid as int)
}

/// Where a creation stands before its request number `i` is answered.
spec fn phase_at(limits: ResourceLimits, uid: u32, pid: u32, replies: Seq<ReplyModel>, i: int) -> (
    LeafPhaseModel) {
    let base = base_from(replies, uid);
    let path = leaf_from(replies, uid, pid);
    let knobs = knobs_of(limits);
    if i == 0 {
        LeafPhaseModel::ReadingMembership
    } else if i == 1 {
        LeafPhaseModel::ProbingBase { base }
    } else if i == 2 {
        LeafPhaseModel::ReadingControllers { base }
    } else if i == 3 {
        LeafPhaseModel::CreatingLeaf { path }
    } else if i < 4 + knobs.len() {
        LeafPhaseModel::WritingKnob { path, knob: knobs[i - 4], rest: knobs.skip(i - 3) }
    } else {
        LeafPhaseModel::OpeningProcs { path }
    }
}

proof fn lemma_unroll(step: LeafStepModel, replies: Seq<ReplyModel>, i: int)
    requires
        0 <= i < requested(step, replies).len(),
    ensures
        i <= replies.len(),
        reached(step, replies.take(i)) is Perform,
        reached(step, replies.take(i))->request == requested(step, replies)[i],
        i < replies.len() ==> reached(step, replies.take(i + 1)) == after(
            reached(step, replies.take(i))->leaf,
            replies[i],
        ),
        i < replies.len() ==> (requested(step, replies).len() == i + 1 <==> !(reached(
            step,
            replies.take(i + 1),
        ) is Perform)),
        i < replies.len() && requested(step, replies).len() == i + 1 ==> reached(step, replies)
            == reached(step, replies.take(i + 1)),
    decreases replies.len(),
{
    assert(step is Perform);
    if replies.len() == 0 {
        assert(replies.take(0) =~= replies);
    } else {
        let next = after(step->leaf, replies[0]);
        let later = replies.drop_first();
        let rest = requested(next, later);
        assert(requested(step, replies) == seq![step->request] + rest);
        if i == 0 {
            assert(reached(step, replies.take(0)) == step);
            let one = replies.take(1);
            assert(one.drop_first() =~= Seq::<ReplyModel>::empty());
            assert(one[0] == replies[0]);
            assert(reached(step, one) == reached(next, one.drop_first()));
            assert(reached(next, one.drop_first()) == next);
            if next is Perform {
                assert(rest.len() > 0);
            } else {
                assert(rest.len() == 0);
                assert(reached(next, later) == next);
            }
        } else {
            lemma_unroll(next, later, i - 1);
            assert(replies.take(i).drop_first() =~= later.take(i - 1));
            assert(replies.take(i)[0] == replies[0]);
            assert(reached(step, replies.take(i)) == reached(next, later.take(i - 1)));
            assert(requested(step, replies)[i] == rest[i - 1]);
            if i < replies.len() {
                assert(replies.take(i + 1).drop_first() =~= later.take(i));
                assert(replies.take(i + 1)[0] == replies[0]);
                assert(reached(step, replies.take(i + 1)) == reached(next, later.take(i)));
                assert(later[i - 1] == replies[i]);
            }
        }
    }
}

proof fn lemma_phase_at(
    limits: ResourceLimits,
    uid: u32,
    pid: u32,
    replies: Seq<ReplyModel>,
    i: int,
)
    requires
        0 <= i < requested(beginning(limits, uid, pid), replies).len(),
    ensures
        i < 5 + knobs_of(limits).len(),
        reached(beginning(limits, uid, pid), replies.take(i))->leaf == (LeafModel {
            limits,
            uid,
            pid,
            phase: phase_at(limits, uid, pid, replies, i),
        }),
        i >= 1 ==> replies[0] is Ok && delegated_base_of(replies[0]->Ok_0, uid) == Ok::<
            Seq<char>,
            Seq<char>,
        >(base_from(replies, uid)),
        i >= 4 ==> replies[3] is Ok,
    decreases i,
{
    let start = beginning(limits, uid, pid);
    let knobs = knobs_of(limits);
    if i == 0 {
        assert(reached(start, replies.take(0)) == start);
    } else {
        lemma_phase_at(limits, uid, pid, replies, i - 1);
        lemma_unroll(start, replies, i - 1);
        lemma_unroll(start, replies, i);
        if i == 4 {
            if knobs.len() > 0 {
                assert(knobs.drop_first() =~= knobs.skip(1));
            }
        } else if i > 4 && i < 4 + knobs.len() {
            assert(knobs.skip(i - 4)[0] == knobs[i - 4]);
            assert(knobs.skip(i - 4).drop_first() =~= knobs.skip(i - 3));
        }
    }
}

proof fn lemma_leaf_path(membership: Seq<char>, uid: u32, pid: u32)
    requires
        delegated_base_of(membership, uid) is Ok,
    ensures
        ({
            let base = delegated_base_of(membership, uid)->Ok_0;
            let path = join_of(base, leaf_name(pid));
            &&& is_users_directory(base, uid)
            &&& is_leaf_in(path, base, pid)
            &&& join_of(base, "cgroup.subtree_control"@) == base.push('/')
                + "cgroup.subtree_control"@
            &&& join_of(path, "cgroup.procs"@) == path.push('/') + "cgroup.procs"@
            &&& join_of(path, "memory.swap.max"@) == path.push('/') + "memory.swap.max"@
            &&& join_of(path, "memory.max"@) == path.push('/') + "memory.max"@
            &&& join_of(path, "memory.oom.group"@) == path.push('/') + "memory.oom.group"@
        }),
{
    let base = delegated_base_of(membership, uid)->Ok_0;
    let name = leaf_name(pid);
    let path = join_of(base, name);
    let n = decimal(pid as nat);
    law_found_directory_is_the_users(membership, uid);
    assert(base.last() != '/') by {
        let a = choose|a: int|
            15 <= a && #[trigger] names_user(base, a, base.len() as int, uid);
        assert(base[base.len() - 1] != '/');
    }
    reveal_strlit("nono.");
    reveal_strlit("cgroup.subtree_control");
    reveal_strlit("cgroup.procs");
    reveal_strlit("memory.swap.max");
    reveal_strlit("memory.max");
    reveal_strlit("memory.oom.group");
    law_decimal_denotes(pid as nat);
    law_join(base, name);
    law_join(base, "cgroup.subtree_control"@);
    assert(path.take(base.len() as int) =~= base);
    assert(path.subrange(base.len() as int, base.len() as int + 6) =~= seq![
        '/',
        'n',
        'o',
        'n',
        'o',
        '.',
    ]);
    assert(path.skip(base.len() as int + 6) =~= n);
    assert(path.last() == n[n.len() - 1]);
    law_join(path, "cgroup.procs"@);
    law_join(path, "memory.swap.max"@);
    law_join(path, "memory.max"@);
    law_join(path, "memory.oom.group"@);
}

/// What a creation asks for is fixed by the number of the request: the membership,
/// the delegated directory, its controllers, the directory `nono.<pid>` in it, then
/// for a memory limit `0` in `memory.swap.max`, the limit in `memory.max` and `1` in
/// `memory.oom.group`, and last the member list. Nothing else is ever asked for.
pub proof fn law_each_request_has_its_place(
    limits: ResourceLimits,
    uid: u32,
    pid: u32,
    replies: Seq<ReplyModel>,
    i: int,
)
    requires
        0 <= i < requested(beginning(limits, uid, pid), replies).len(),
    ensures
        ({
            let requests = requested(beginning(limits, uid, pid), replies);
            let base = delegated_base_of(replies[0]->Ok_0, uid)->Ok_0;
            let path = requests[3]->CreateDir_path;
            let limited = limits.memory_bytes is Some;
            &&& i == 0 ==> requests[i] == (RequestModel::Read { path: "/proc/self/cgroup"@ })
            &&& i >= 1 ==> replies[0] is Ok && delegated_base_of(replies[0]->Ok_0, uid) is Ok
                && is_users_directory(base, uid)
            &&& i == 1 ==> requests[i] == (RequestModel::ProbeDir { path: base })
            &&& i == 2 ==> requests[i] == (RequestModel::Read {
                path: base.push('/') + "cgroup.subtree_control"@,
            })
            &&& i >= 3 ==> requests[3] == (RequestModel::CreateDir { path }) && is_leaf_in(
                path,
                base,
                pid,
            )
            &&& limited && i == 4 ==> requests[i] == (RequestModel::Write {
                path: path.push('/') + "memory.swap.max"@,
                value: "0"@,
            })
            &&& limited && i == 5 ==> {
                &&& requests[i] is Write
                &&& requests[i]->Write_path == path.push('/') + "memory.max"@
                &&& denotes(requests[i]->Write_value, limits.memory_bytes->Some_0 as int)
            }
            &&& limited && i == 6 ==> requests[i] == (RequestModel::Write {
                path: path.push('/') + "memory.oom.group"@,
                value: "1"@,
            })
            &&& i == (if limited {
                7int
            } else {
                4
            }) ==> requests[i] == (RequestModel::OpenForWriting {
                path: path.push('/') + "cgroup.procs"@,
            })
            &&& i < (if limited {
                8int
            } else {
                5
            })
        }),
{
    let start = beginning(limits, uid, pid);
    let requests = requested(start, replies);
    let knobs = knobs_of(limits);
    lemma_phase_at(limits, uid, pid, replies, i);
    lemma_creation(limits, uid, pid, replies);
    let path = leaf_from(replies, uid, pid);
    let course = whole_course(base_from(replies, uid), path, limits);
    assert(requests[i] == course[i]);
    if i >= 1 {
        lemma_leaf_path(replies[0]->Ok_0, uid, pid);
    }
    if i >= 3 {
        assert(requests[3] == course[3]);
    }
    match limits.memory_bytes {
        Some(max) => {
            law_ceiling_is_what_was_asked_for(max);
        },
        None => {
            law_ceiling_is_what_was_asked_for(0);
        },
    }
    if i >= 4 {
        assert(course[i] == arming_course(path, knobs)[i - 4]);
        if i - 4 < knobs.len() {
            assert(course[i] == writing(path, knobs[i - 4]));
        }
    }
}

/// A creation stops at the first request whose reply does not satisfy it, and there
/// only: at a failure, at a membership without a directory delegated to the user,
/// at controllers without the one that is needed; and it ends armed where the
/// member list, the last request, was opened.
pub proof fn law_creation_goes_on_exactly_while_satisfied(
    limits: ResourceLimits,
    uid: u32,
    pid: u32,
    replies: Seq<ReplyModel>,
    i: int,
)
    requires
        0 <= i < requested(beginning(limits, uid, pid), replies).len(),
        i < replies.len(),
    ensures
        ({
            let requests = requested(beginning(limits, uid, pid), replies);
            let base = delegated_base_of(replies[0]->Ok_0, uid)->Ok_0;
            requests.len() > i + 1 <==> {
                &&& replies[i] is Ok
                &&& i == 0 ==> delegated_base_of(replies[0]->Ok_0, uid) is Ok
                &&& i == 2 ==> controllers_verdict(base, limits, replies[2]->Ok_0) is Ok
                &&& !(requests[i] is OpenForWriting)
            }
        }),
{
    let start = beginning(limits, uid, pid);
    lemma_phase_at(limits, uid, pid, replies, i);
    lemma_unroll(start, replies, i);
    law_each_request_has_its_place(limits, uid, pid, replies, i);
    match limits.memory_bytes {
        Some(max) => {
            law_ceiling_is_what_was_asked_for(max);
        },
        None => {
            law_ceiling_is_what_was_asked_for(0);
        },
    }
}

/// How a creation ends, by the reply to its last request. A refusal explains what
/// failed, with the system's own words, and names the directory once it is there.
pub proof fn law_end_follows_from_the_last_reply(
    limits: ResourceLimits,
    uid: u32,
    pid: u32,
    replies: Seq<ReplyModel>,
    i: int,
)
    requires
        requested(beginning(limits, uid, pid), replies).len() == i + 1,
        0 <= i < replies.len(),
    ensures
        ({
            let requests = requested(beginning(limits, uid, pid), replies);
            let end = reached(beginning(limits, uid, pid), replies);
            let base = delegated_base_of(replies[0]->Ok_0, uid)->Ok_0;
            let path = requests[3]->CreateDir_path;
            &&& !(end is Perform)
            &&& end is Refused ==> end->leftover == if i <= 3 {
                None
            } else {
                Some(path)
            }
            &&& end is Armed <==> requests[i] is OpenForWriting && replies[i] is Ok
            &&& end is Armed ==> end->Armed_path == path
            &&& replies[i] matches Err(cause) ==> end is Refused && end->error == (if i == 0 {
                "resource: cannot read /proc/self/cgroup: "@ + cause
            } else if i == 1 {
                "resource: delegated cgroup path "@ + base + " does not exist"@
            } else if i == 2 {
                "resource: cannot read "@ + (base.push('/') + "cgroup.subtree_control"@) + " ("@
                    + cause + ")"@
            } else if i == 3 {
                "resource: failed to create cgroup leaf "@ + path + ": "@ + cause
            } else if requests[i] is Write {
                "resource: failed to write '"@ + requests[i]->Write_value + "' to "@
                    + requests[i]->Write_path + " ("@ + cause
                    + "); is the cgroup v2 controller delegated?"@
            } else {
                "resource: failed to open "@ + (path.push('/') + "cgroup.procs"@)
                    + " for self-attach ("@ + cause + ")"@
            })
            &&& i == 0 && replies[0] is Ok ==> delegated_base_of(replies[0]->Ok_0, uid) == Err::<
                Seq<char>,
                Seq<char>,
            >(end->error)
            &&& i == 2 && replies[2] is Ok ==> controllers_verdict(base, limits, replies[2]->Ok_0)
                == Err::<(), Seq<char>>(end->error)
        }),
{
    let start = beginning(limits, uid, pid);
    lemma_phase_at(limits, uid, pid, replies, i);
    lemma_unroll(start, replies, i);
    law_each_request_has_its_place(limits, uid, pid, replies, i);
    if i >= 1 {
        lemma_leaf_path(replies[0]->Ok_0, uid, pid);
    }
    if i >= 3 {
        lemma_phase_at(limits, uid, pid, replies, 3);
        lemma_unroll(start, replies, 3);
        lemma_creation(limits, uid, pid, replies);
        assert(requested(start, replies)[3] == whole_course(
            base_from(replies, uid),
            leaf_from(replies, uid, pid),
            limits,
        )[3]);
    }
    match limits.memory_bytes {
        Some(max) => {
            law_ceiling_is_what_was_asked_for(max);
        },
        None => {
            law_ceiling_is_what_was_asked_for(0);
        },
    }
    if i >= 4 {
        lemma_creation(limits, uid, pid, replies);
        let path = leaf_from(replies, uid, pid);
        let course = whole_course(base_from(replies, uid), path, limits);
        let knobs = knobs_of(limits);
        assert(requested(start, replies)[i] == course[i]);
        assert(course[i] == arming_course(path, knobs)[i - 4]);
        if i - 4 < knobs.len() {
            assert(course[i] == writing(path, knobs[i - 4]));
        }
    }
}

/// A model says of a step what the step says: the request, the armed directory, or
/// the directory to take down and the explanation to give.
pub proof fn law_step_is_faithful(step: LeafStep)
    ensures
        match (step, step@) {
            (
                LeafStep::Perform { leaf: a, request: r },
                LeafStepModel::Perform { leaf: b, request: q },
            ) => a@ == b && r@ == q,
            (LeafStep::Armed { path: p }, LeafStepModel::Armed { path: q }) => p@ == q,
            (
                LeafStep::Refused { leftover: a, error: NonoError::SandboxInit(text) },
                LeafStepModel::Refused { leftover: b, error: said },
            ) => {
                &&& text@ == said
                &&& a is Some <==> b is Some
                &&& a matches Some(path) ==> b == Some(path@)
            },
            _ => false,
        },
{
}

} // verus!
