//! Emptying and removing a cgroup.
use crate::path::{join, join_of, law_join};
use crate::request::{said, Reply, ReplyModel, Request, RequestModel};
use crate::text::{law_trim_to_nothing, trim, trim_of, white_space};
use vstd::prelude::*;

verus! {

/// How often to look whether the kernel has reaped the killed members before the
/// directory is removed: this many checks, [`REAP_POLL_MILLIS`] apart. In the
/// common case (the child has already exited) the first check passes and nothing
/// sleeps.
pub const REAP_POLL_ATTEMPTS: u32 = 50;

/// How long to wait between two checks, in milliseconds.
pub const REAP_POLL_MILLIS: u64 = 10;

/// What a teardown waits for.
#[derive(Clone, Copy, Debug)]
pub enum TeardownPhase {
    /// The members are being killed.
    Killing,
    /// The member list is being read; `attempts` such reads are left, this one
    /// included.
    Checking { attempts: u32 },
    /// Time passes after a check that found members, the first of `attempts`.
    Waiting { attempts: u32 },
    /// The directory is being removed.
    Removing,
}

/// Kills anything still in a cgroup, waits briefly for the kernel to reap it, then
/// removes the directory. Best-effort: leaking an empty cgroup directory is not
/// worth failing a completed run over.
pub struct Teardown {
    path: String,
    phase: TeardownPhase,
}

/// A teardown, with its path as a sequence of characters.
pub struct TeardownModel {
    pub path: Seq<char>,
    pub phase: TeardownPhase,
}

impl View for Teardown {
    type V = TeardownModel;

    closed spec fn view(&self) -> TeardownModel {
        TeardownModel { path: self.path@, phase: self.phase }
    }
}

/// Where a teardown stands.
pub enum TeardownStep {
    /// `request` is to be performed and its reply handed to `teardown`.
    Perform { teardown: Teardown, request: Request },
    /// Nothing is left to do.
    Finished,
}

/// Where a teardown stands, over models.
pub enum TeardownStepModel {
    Perform { teardown: TeardownModel, request: RequestModel },
    Finished,
}

impl View for TeardownStep {
    type V = TeardownStepModel;

    open spec fn view(&self) -> TeardownStepModel {
        match self {
            TeardownStep::Perform { teardown, request } => TeardownStepModel::Perform {
                teardown: teardown@,
                request: request@,
            },
            TeardownStep::Finished => TeardownStepModel::Finished,
        }
    }
}

/// Killing the members of `path`.
pub open spec fn killing(path: Seq<char>) -> TeardownStepModel {
    TeardownStepModel::Perform {
        teardown: TeardownModel { path, phase: TeardownPhase::Killing },
        request: RequestModel::Write { path: join_of(path, "cgroup.kill"@), value: "1"@ },
    }
}

/// Checking for members of `path`, with `attempts` checks left.
pub open spec fn checking(path: Seq<char>, attempts: u32) -> TeardownStepModel {
    TeardownStepModel::Perform {
        teardown: TeardownModel { path, phase: TeardownPhase::Checking { attempts } },
        request: RequestModel::Read { path: join_of(path, "cgroup.procs"@) },
    }
}

/// Letting time pass after a check of `path` that found members.
pub open spec fn waiting(path: Seq<char>, attempts: u32) -> TeardownStepModel {
    TeardownStepModel::Perform {
        teardown: TeardownModel { path, phase: TeardownPhase::Waiting { attempts } },
        request: RequestModel::Sleep { millis: REAP_POLL_MILLIS },
    }
}

/// Removing `path`.
pub open spec fn removing(path: Seq<char>) -> TeardownStepModel {
    TeardownStepModel::Perform {
        teardown: TeardownModel { path, phase: TeardownPhase::Removing },
        request: RequestModel::RemoveDir { path },
    }
}

/// What a reply leads to. Killing and removing go on whether they succeed or not;
/// a check ends the waiting where it finds no member or cannot be made.
pub open spec fn after(teardown: TeardownModel, reply: ReplyModel) -> TeardownStepModel {
    let path = teardown.path;
    match teardown.phase {
        TeardownPhase::Killing => checking(path, REAP_POLL_ATTEMPTS),
        TeardownPhase::Checking { attempts } => match reply {
            Ok(members) => if trim_of(members).len() == 0 {
                removing(path)
            } else {
                waiting(path, attempts)
            },
            Err(_) => removing(path),
        },
        TeardownPhase::Waiting { attempts } => if attempts > 1 {
            checking(path, (attempts - 1) as u32)
        } else {
            removing(path)
        },
        TeardownPhase::Removing => TeardownStepModel::Finished,
    }
}

impl Teardown {
    /// Starts the teardown of the cgroup at `path`.
    pub fn begin(path: String) -> (step: TeardownStep)
        ensures
            step@ == killing(path@),
    {
        let request = Request::Write {
            path: join(path.as_str(), "cgroup.kill"),
            value: "1".to_owned(),
        };
        TeardownStep::Perform {
            teardown: Teardown { path, phase: TeardownPhase::Killing },
            request,
        }
    }

    fn check(path: String, attempts: u32) -> (step: TeardownStep)
        ensures
            step@ == checking(path@, attempts),
    {
        let request = Request::Read { path: join(path.as_str(), "cgroup.procs") };
        TeardownStep::Perform {
            teardown: Teardown { path, phase: TeardownPhase::Checking { attempts } },
            request,
        }
    }

    fn remove(path: String) -> (step: TeardownStep)
        ensures
            step@ == removing(path@),
    {
        let request = Request::RemoveDir { path: path.clone() };
        TeardownStep::Perform {
            teardown: Teardown { path, phase: TeardownPhase::Removing },
            request,
        }
    }

    /// Takes the reply to the last request and says what comes next.
    pub fn advance(self, reply: Reply) -> (step: TeardownStep)
        ensures
            step@ == after(self@, said(reply)),
    {
        let Teardown { path, phase } = self;
        match phase {
            TeardownPhase::Killing => Teardown::check(path, REAP_POLL_ATTEMPTS),
            TeardownPhase::Checking { attempts } => match reply {
                Ok(members) => if trim(members.as_str()).is_empty() {
                    Teardown::remove(path)
                } else {
                    TeardownStep::Perform {
                        teardown: Teardown { path, phase: TeardownPhase::Waiting { attempts } },
                        request: Request::Sleep { millis: REAP_POLL_MILLIS },
                    }
                },
                Err(_) => Teardown::remove(path),
            },
            TeardownPhase::Waiting { attempts } => if attempts > 1 {
                Teardown::check(path, attempts - 1)
            } else {
                Teardown::remove(path)
            },
            TeardownPhase::Removing => TeardownStep::Finished,
        }
    }
}

/// What is asked for, in order, from `step` on, where the replies are `replies`.
pub open spec fn requested(step: TeardownStepModel, replies: Seq<ReplyModel>) -> Seq<RequestModel>
    decreases replies.len(),
{
    match step {
        TeardownStepModel::Finished => Seq::empty(),
        TeardownStepModel::Perform { teardown, request } => if replies.len() == 0 {
            seq![request]
        } else {
            seq![request] + requested(after(teardown, replies[0]), replies.drop_first())
        },
    }
}

/// Where `replies` lead from `step`.
pub open spec fn reached(step: TeardownStepModel, replies: Seq<ReplyModel>) -> TeardownStepModel
    decreases replies.len(),
{
    match step {
        TeardownStepModel::Finished => step,
        TeardownStepModel::Perform { teardown, .. } => if replies.len() == 0 {
            step
        } else {
            reached(after(teardown, replies[0]), replies.drop_first())
        },
    }
}

/// How long `requests` sleep altogether, in milliseconds.
pub open spec fn slept(requests: Seq<RequestModel>) -> int
    decreases requests.len(),
{
    if requests.len() == 0 {
        0
    } else {
        slept(requests.drop_first()) + match requests[0] {
            RequestModel::Sleep { millis } => millis as int,
            _ => 0,
        }
    }
}

/// Whether a teardown of `path` may ask for `request`: it touches the directory
/// and its `cgroup.kill` and `cgroup.procs` files, and nothing else.
pub open spec fn concerns(request: RequestModel, path: Seq<char>) -> bool {
    ||| request == RequestModel::Write { path: join_of(path, "cgroup.kill"@), value: "1"@ }
    ||| request == RequestModel::Read { path: join_of(path, "cgroup.procs"@) }
    ||| request == RequestModel::Sleep { millis: REAP_POLL_MILLIS }
    ||| request == RequestModel::RemoveDir { path }
}

/// The largest number of replies that `step` can still take.
spec fn budget(step: TeardownStepModel) -> int {
    match step {
        TeardownStepModel::Finished => 0,
        TeardownStepModel::Perform { teardown, .. } => match teardown.phase {
            TeardownPhase::Killing => 2 * REAP_POLL_ATTEMPTS + 2,
            TeardownPhase::Checking { attempts } => 2 * attempts + 1,
            TeardownPhase::Waiting { attempts } => 2 * attempts as int,
            TeardownPhase::Removing => 1,
        },
    }
}

/// The longest time that `step` can still sleep.
spec fn patience(step: TeardownStepModel) -> int {
    match step {
        TeardownStepModel::Finished => 0,
        TeardownStepModel::Perform { teardown, .. } => match teardown.phase {
            TeardownPhase::Killing => REAP_POLL_ATTEMPTS * REAP_POLL_MILLIS,
            TeardownPhase::Checking { attempts } => attempts * REAP_POLL_MILLIS,
            TeardownPhase::Waiting { attempts } => attempts * REAP_POLL_MILLIS,
            TeardownPhase::Removing => 0,
        },
    }
}

/// The steps that a teardown of `path` goes through.
spec fn on_course(step: TeardownStepModel, path: Seq<char>) -> bool {
    ||| step == killing(path)
    ||| step == removing(path)
    ||| step == TeardownStepModel::Finished
    ||| exists|k: u32| 1 <= k <= REAP_POLL_ATTEMPTS && #[trigger] checking(path, k) == step
    ||| exists|k: u32| 1 <= k <= REAP_POLL_ATTEMPTS && #[trigger] waiting(path, k) == step
}

proof fn lemma_stays_on_course(step: TeardownStepModel, path: Seq<char>, reply: ReplyModel)
    requires
        on_course(step, path),
        step is Perform,
    ensures
        on_course(after(step->teardown, reply), path),
        budget(after(step->teardown, reply)) < budget(step),
        patience(after(step->teardown, reply)) + slept(seq![step->request]) <= patience(step),
        concerns(step->request, path),
        step->request is RemoveDir ==> after(step->teardown, reply) is Finished,
        after(step->teardown, reply) is Finished ==> step == removing(path),
{
    reveal_with_fuel(slept, 2);
    let next = after(step->teardown, reply);
    match step->teardown.phase {
        TeardownPhase::Killing => {
            assert(next == checking(path, REAP_POLL_ATTEMPTS));
        },
        TeardownPhase::Checking { attempts } => {
            assert(next == waiting(path, attempts) || next == removing(path));
        },
        TeardownPhase::Waiting { attempts } => {
            assert(attempts > 1 ==> next == checking(path, (attempts - 1) as u32));
        },
        TeardownPhase::Removing => {},
    }
}

proof fn lemma_course(step: TeardownStepModel, path: Seq<char>, replies: Seq<ReplyModel>)
    requires
        on_course(step, path),
    ensures
        replies.len() >= budget(step) ==> reached(step, replies) is Finished,
        slept(requested(step, replies)) <= patience(step),
        forall|i: int|
            0 <= i < requested(step, replies).len() ==> concerns(
                #[trigger] requested(step, replies)[i],
                path,
            ),
        forall|i: int|
            0 <= i < requested(step, replies).len() - 1 ==> !(#[trigger] requested(
                step,
                replies,
            )[i] is RemoveDir),
        step is Perform && reached(step, replies) is Finished ==> requested(step, replies).len() > 0
            && requested(step, replies).last() == (RequestModel::RemoveDir { path }),
    decreases replies.len(),
{
    reveal_with_fuel(slept, 2);
    if step is Perform {
        if replies.len() == 0 {
            lemma_stays_on_course(step, path, Ok(Seq::empty()));
            assert(requested(step, replies) == seq![step->request]);
        } else {
            let next = after(step->teardown, replies[0]);
            lemma_stays_on_course(step, path, replies[0]);
            lemma_course(next, path, replies.drop_first());
            let rest = requested(next, replies.drop_first());
            let all = requested(step, replies);
            assert(all == seq![step->request] + rest);
            assert(all.drop_first() == rest);
            assert forall|i: int| 0 <= i < all.len() implies concerns(#[trigger] all[i], path) by {
                if i > 0 {
                    assert(all[i] == rest[i - 1]);
                }
            }
            assert forall|i: int| 0 <= i < all.len() - 1 implies !(#[trigger] all[i] is RemoveDir) by {
                if i > 0 {
                    assert(all[i] == rest[i - 1]);
                } else if next is Finished {
                    assert(rest.len() == 0);
                }
            }
        }
    }
}

/// However the requests go, a teardown comes to its end, and within a bounded
/// number of them.
pub proof fn law_teardown_ends(path: Seq<char>, replies: Seq<ReplyModel>)
    requires
        replies.len() >= 2 * REAP_POLL_ATTEMPTS + 2,
    ensures
        reached(killing(path), replies) is Finished,
{
    lemma_course(killing(path), path, replies);
}

/// Once a teardown has ended it has killed the members first and asked for the
/// removal of the directory last, once.
pub proof fn law_teardown_kills_then_removes(path: Seq<char>, replies: Seq<ReplyModel>)
    requires
        reached(killing(path), replies) is Finished,
    ensures
        ({
            let requests = requested(killing(path), replies);
            &&& requests.len() >= 2
            &&& requests[0] == RequestModel::Write {
                path: join_of(path, "cgroup.kill"@),
                value: "1"@,
            }
            &&& requests.last() == (RequestModel::RemoveDir { path })
            &&& forall|i: int| 0 <= i < requests.len() - 1 ==> !(#[trigger] requests[i] is RemoveDir)
        }),
{
    lemma_course(killing(path), path, replies);
    let requests = requested(killing(path), replies);
    assert(replies.len() > 0);
    assert(requests[0] == killing(path)->request);
}

/// A teardown never sleeps longer than its budget of half a second.
pub proof fn law_teardown_waits_at_most_half_a_second(path: Seq<char>, replies: Seq<ReplyModel>)
    ensures
        slept(requested(killing(path), replies)) <= 500,
{
    lemma_course(killing(path), path, replies);
}

/// A teardown touches its own directory and the two control files in it, and
/// nothing else.
pub proof fn law_teardown_stays_in_its_directory(
    path: Seq<char>,
    replies: Seq<ReplyModel>,
    i: int,
)
    requires
        0 <= i < requested(killing(path), replies).len(),
    ensures
        concerns(requested(killing(path), replies)[i], path),
{
    lemma_course(killing(path), path, replies);
}

/// Where the first check finds no member, or cannot be made, nothing sleeps: the
/// members are killed, looked for once, and the directory is removed.
pub proof fn law_empty_leaf_is_removed_at_once(path: Seq<char>, replies: Seq<ReplyModel>)
    requires
        replies.len() >= 3,
        replies[1] matches Ok(members) ==> trim_of(members).len() == 0,
    ensures
        requested(killing(path), replies) == seq![
            killing(path)->request,
            checking(path, REAP_POLL_ATTEMPTS)->request,
            removing(path)->request,
        ],
        reached(killing(path), replies) is Finished,
{
    let r1 = replies.drop_first();
    let r2 = r1.drop_first();
    let r3 = r2.drop_first();
    assert(r1[0] == replies[1]);
    assert(requested(TeardownStepModel::Finished, r3) == Seq::<RequestModel>::empty());
    assert(requested(removing(path), r2) =~= seq![removing(path)->request]);
    assert(reached(TeardownStepModel::Finished, r3) is Finished);
    assert(reached(removing(path), r2) is Finished);
    assert(requested(checking(path, REAP_POLL_ATTEMPTS), r1) =~= seq![
        checking(path, REAP_POLL_ATTEMPTS)->request,
        removing(path)->request,
    ]);
    assert(reached(checking(path, REAP_POLL_ATTEMPTS), r1) is Finished);
}

/// The control file `name` in the directory `dir`.
pub open spec fn control_file(dir: Seq<char>, name: Seq<char>) -> Seq<char> {
    if dir.len() == 0 || dir.last() == '/' {
        dir + name
    } else {
        dir.push('/') + name
    }
}

/// Whether a read of the member list found a member: it succeeded, and not all of
/// its text is white space.
pub open spec fn found_members(reply: ReplyModel) -> bool {
    reply matches Ok(text) && exists|j: int|
        0 <= j < text.len() && !white_space(#[trigger] text[j])
}

proof fn lemma_unroll(step: TeardownStepModel, replies: Seq<ReplyModel>, i: int)
    requires
        0 <= i < requested(step, replies).len(),
    ensures
        i <= replies.len(),
        reached(step, replies.take(i)) is Perform,
        reached(step, replies.take(i))->request == requested(step, replies)[i],
        i < replies.len() ==> {
            let next = after(reached(step, replies.take(i))->teardown, replies[i]);
            &&& reached(step, replies.take(i + 1)) == next
            &&& next is Perform <==> requested(step, replies).len() > i + 1
            &&& next is Finished ==> reached(step, replies) is Finished
        },
    decreases replies.len(),
{
    assert(step is Perform);
    if replies.len() == 0 {
        assert(replies.take(0) =~= replies);
    } else {
        let next = after(step->teardown, replies[0]);
        let later = replies.drop_first();
        let rest = requested(next, later);
        assert(requested(step, replies) == seq![step->request] + rest);
        if i == 0 {
            assert(reached(step, replies.take(0)) == step);
            let one = replies.take(1);
            assert(one.drop_first() =~= Seq::<ReplyModel>::empty());
            assert(one[0] == replies[0]);
            assert(reached(step, one) == reached(next, one.drop_first()));
            assert(reached(next, one.drop_first()) == next);
            if next is Perform {
                assert(rest.len() > 0);
            } else {
                assert(rest.len() == 0);
                assert(reached(next, later) == next);
            }
        } else {
            lemma_unroll(next, later, i - 1);
            assert(replies.take(i).drop_first() =~= later.take(i - 1));
            assert(replies.take(i)[0] == replies[0]);
            assert(reached(step, replies.take(i)) == reached(next, later.take(i - 1)));
            assert(requested(step, replies)[i] == rest[i - 1]);
            if i < replies.len() {
                assert(replies.take(i + 1).drop_first() =~= later.take(i));
                assert(replies.take(i + 1)[0] == replies[0]);
                assert(reached(step, replies.take(i + 1)) == reached(next, later.take(i)));
                assert(later[i - 1] == replies[i]);
            }
        }
    }
}

/// Where a teardown stands before its request number `i` is answered: removing the
/// directory, or reading and sleeping by turns.
proof fn lemma_place(path: Seq<char>, replies: Seq<ReplyModel>, i: int)
    requires
        0 <= i < requested(killing(path), replies).len(),
    ensures
        ({
            let step = reached(killing(path), replies.take(i));
            ||| i == 0 && step == killing(path)
            ||| i >= 2 && step == removing(path)
            ||| i % 2 == 1 && i <= 99 && step == checking(path, (50 - (i - 1) / 2) as u32)
            ||| i % 2 == 0 && 2 <= i <= 100 && step == waiting(path, (51 - i / 2) as u32)
        }),
    decreases i,
{
    let start = killing(path);
    if i == 0 {
        assert(reached(start, replies.take(0)) == start);
    } else {
        lemma_unroll(start, replies, i);
        lemma_unroll(start, replies, i - 1);
        lemma_place(path, replies, i - 1);
    }
}

/// A leaf that still has members is waited for. The members are killed first and
/// looked for next. A look that finds one is followed by a sleep of ten
/// milliseconds, and that by another look, unless fifty have been made. So the
/// directory is removed only right after a look that found no member or could not
/// be made, or once fifty looks have each found one; and then the teardown ends.
pub proof fn law_busy_leaf_is_waited_for(path: Seq<char>, replies: Seq<ReplyModel>, i: int)
    requires
        0 <= i < requested(killing(path), replies).len(),
    ensures
        ({
            let requests = requested(killing(path), replies);
            let look = RequestModel::Read { path: control_file(path, "cgroup.procs"@) };
            let nap = RequestModel::Sleep { millis: 10 };
            let removal = RequestModel::RemoveDir { path };
            &&& i == 0 ==> requests[0] == (RequestModel::Write {
                path: control_file(path, "cgroup.kill"@),
                value: "1"@,
            })
            &&& i > 0 ==> requests[i] == look || requests[i] == nap || requests[i] == removal
            &&& requests[i] == look ==> i % 2 == 1 && i <= 99
            &&& requests[i] == nap ==> i % 2 == 0 && 2 <= i <= 100
            &&& requests.len() == i + 1 && i < replies.len() ==> requests[i] == removal
                && reached(killing(path), replies) is Finished
            &&& i + 1 < requests.len() ==> i < replies.len() && requests[i + 1] == (if i == 0 {
                look
            } else if requests[i] == look {
                if found_members(replies[i]) {
                    nap
                } else {
                    removal
                }
            } else if i < 100 {
                look
            } else {
                removal
            }) && requests[i] != removal
        }),
{
    let start = killing(path);
    let requests = requested(start, replies);
    reveal_strlit("cgroup.procs");
    reveal_strlit("cgroup.kill");
    law_join(path, "cgroup.procs"@);
    law_join(path, "cgroup.kill"@);
    lemma_unroll(start, replies, i);
    lemma_place(path, replies, i);
    if i < replies.len() {
        if let Ok(text) = replies[i] {
            law_trim_to_nothing(text);
        }
    }
    if i + 1 < requests.len() {
        lemma_unroll(start, replies, i + 1);
        lemma_place(path, replies, i + 1);
    }
}

} // verus!
