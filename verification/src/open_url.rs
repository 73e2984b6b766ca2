//! The helper that a sandboxed program runs in place of a browser: it asks the
//! supervisor, over its socket, to open a URL.
use crate::decimal::{decimal, decimal_string, denotes, law_decimal_denotes};
use crate::error::{verdict, NonoError};
use vstd::prelude::*;

verus! {

/// How long to wait for the supervisor's response, in seconds.
pub const READ_TIMEOUT_SECS: u64 = 5;

/// What the helper is invoked with.
#[derive(Debug)]
pub struct OpenUrlHelperArgs {
    pub url: String,
}

/// A request to open a URL.
#[derive(Debug, PartialEq, Eq)]
pub struct UrlOpenRequest {
    pub request_id: String,
    pub url: String,
    pub child_pid: u32,
    pub session_id: String,
}

/// A request to open a URL, with its texts as sequences of characters.
pub struct UrlOpenRequestModel {
    pub request_id: Seq<char>,
    pub url: Seq<char>,
    pub child_pid: u32,
    pub session_id: Seq<char>,
}

impl View for UrlOpenRequest {
    type V = UrlOpenRequestModel;

    open spec fn view(&self) -> UrlOpenRequestModel {
        UrlOpenRequestModel {
            request_id: self.request_id@,
            url: self.url@,
            child_pid: self.child_pid,
            session_id: self.session_id@,
        }
    }
}

/// What the supervisor may answer.
#[derive(Debug)]
pub enum SupervisorResponse {
    /// The URL was opened, or was not, for the reason given.
    UrlOpened { success: bool, error: Option<String> },
    /// Any other response, as it is shown for debugging.
    Other { rendering: String },
}

/// What the supervisor may answer, with texts as sequences of characters.
pub enum SupervisorResponseModel {
    UrlOpened { success: bool, error: Option<Seq<char>> },
    Other { rendering: Seq<char> },
}

impl View for SupervisorResponse {
    type V = SupervisorResponseModel;

    open spec fn view(&self) -> SupervisorResponseModel {
        match self {
            SupervisorResponse::UrlOpened { success, error } => SupervisorResponseModel::UrlOpened {
                success: *success,
                error: match error {
                    Some(reason) => Some(reason@),
                    None => None,
                },
            },
            SupervisorResponse::Other { rendering } => SupervisorResponseModel::Other {
                rendering: rendering@,
            },
        }
    }
}

/// One thing to be done with the supervisor's socket.
#[derive(Debug, PartialEq, Eq)]
pub enum SocketRequest {
    /// Connect to the socket at `path`.
    Connect { path: String },
    /// Let reads time out after `secs` seconds.
    SetReadTimeout { secs: u64 },
    /// Send the supervisor a message that asks to open a URL.
    SendOpenUrl { request: UrlOpenRequest },
    /// Receive a response.
    Receive,
}

/// One thing to be done with the supervisor's socket, over models.
pub enum SocketRequestModel {
    Connect { path: Seq<char> },
    SetReadTimeout { secs: u64 },
    SendOpenUrl { request: UrlOpenRequestModel },
    Receive,
}

impl View for SocketRequest {
    type V = SocketRequestModel;

    open spec fn view(&self) -> SocketRequestModel {
        match self {
            SocketRequest::Connect { path } => SocketRequestModel::Connect { path: path@ },
            SocketRequest::SetReadTimeout { secs } => SocketRequestModel::SetReadTimeout {
                secs: *secs,
            },
            SocketRequest::SendOpenUrl { request } => SocketRequestModel::SendOpenUrl {
                request: request@,
            },
            SocketRequest::Receive => SocketRequestModel::Receive,
        }
    }
}

/// How a request went. `E` is the transport's own error.
#[derive(Debug)]
pub enum SocketReply<E> {
    /// It was carried out, and brought no response.
    Done,
    /// It was carried out, and brought a response. Only a receive brings one that
    /// counts.
    Received(SupervisorResponse),
    /// It failed.
    Failed(E),
}

/// How a request went, over models.
pub enum SocketReplyModel<E> {
    Done,
    Received(SupervisorResponseModel),
    Failed(E),
}

impl<E> View for SocketReply<E> {
    type V = SocketReplyModel<E>;

    open spec fn view(&self) -> SocketReplyModel<E> {
        match self {
            SocketReply::Done => SocketReplyModel::Done,
            SocketReply::Received(response) => SocketReplyModel::Received(response@),
            SocketReply::Failed(error) => SocketReplyModel::Failed(*error),
        }
    }
}

enum HelperPhase {
    Connecting { request: UrlOpenRequest },
    SettingTimeout { request: UrlOpenRequest },
    Sending,
    Receiving,
}

/// What the helper waits for.
pub enum HelperModel {
    /// The connection, after which `request` is to be sent.
    Connecting { request: UrlOpenRequestModel },
    /// The read timeout, after which `request` is to be sent.
    SettingTimeout { request: UrlOpenRequestModel },
    /// The sending of the request.
    Sending,
    /// The supervisor's response.
    Receiving,
}

/// The helper at work.
pub struct OpenUrlHelper {
    phase: HelperPhase,
}

impl View for OpenUrlHelper {
    type V = HelperModel;

    closed spec fn view(&self) -> HelperModel {
        match &self.phase {
            HelperPhase::Connecting { request } => HelperModel::Connecting { request: request@ },
            HelperPhase::SettingTimeout { request } => HelperModel::SettingTimeout {
                request: request@,
            },
            HelperPhase::Sending => HelperModel::Sending,
            HelperPhase::Receiving => HelperModel::Receiving,
        }
    }
}

/// Where the helper stands.
pub enum HelperStep<E> {
    /// `request` is to be performed and its reply handed to `helper`.
    Perform { helper: OpenUrlHelper, request: SocketRequest },
    /// The helper is done, with this result.
    Finished(Result<(), NonoError>),
    /// The transport failed, with this error.
    Failed(E),
}

/// Where the helper stands, over models.
pub enum HelperStepModel<E> {
    Perform { helper: HelperModel, request: SocketRequestModel },
    Finished(Result<(), Seq<char>>),
    Failed(E),
}

impl<E> View for HelperStep<E> {
    type V = HelperStepModel<E>;

    open spec fn view(&self) -> HelperStepModel<E> {
        match self {
            HelperStep::Perform { helper, request } => HelperStepModel::Perform {
                helper: helper@,
                request: request@,
            },
            HelperStep::Finished(result) => HelperStepModel::Finished(verdict(*result)),
            HelperStep::Failed(error) => HelperStepModel::Failed(*error),
        }
    }
}

/// The request that process `pid` makes for `url`.
pub open spec fn request_of(url: Seq<char>, pid: u32) -> UrlOpenRequestModel {
    UrlOpenRequestModel {
        request_id: "url-"@ + decimal(pid as nat),
        url,
        child_pid: pid,
        session_id: Seq::empty(),
    }
}

/// What a response means for the helper: success where the URL was opened, and
/// otherwise the explanation.
pub open spec fn conclusion_of(response: SupervisorResponseModel) -> Result<(), Seq<char>> {
    match response {
        SupervisorResponseModel::UrlOpened { success: true, .. } => Ok(()),
        SupervisorResponseModel::UrlOpened { success: false, error } => Err(
            "Supervisor denied URL open: "@ + match error {
                Some(reason) => reason,
                None => "Unknown error"@,
            },
        ),
        SupervisorResponseModel::Other { rendering } => Err(
            "Unexpected supervisor response: "@ + rendering,
        ),
    }
}

/// How the helper begins: with the connection to the socket at `socket_path`, where
/// the environment names one.
pub open spec fn beginning<E>(
    url: Seq<char>,
    pid: u32,
    socket_path: Option<Seq<char>>,
) -> HelperStepModel<E> {
    match socket_path {
        Some(path) => HelperStepModel::Perform {
            helper: HelperModel::Connecting { request: request_of(url, pid) },
            request: SocketRequestModel::Connect { path },
        },
        None => HelperStepModel::Finished(
            Err(
                "NONO_SUPERVISOR_PATH not set. open-url-helper must be invoked inside a nono sandbox."@,
            ),
        ),
    }
}

/// What a reply leads to. A failure ends the helper with the transport's error; the
/// supervisor's response ends it with what the response means; and as long as
/// none has come, the helper keeps receiving.
pub open spec fn after<E>(helper: HelperModel, reply: SocketReplyModel<E>) -> HelperStepModel<E> {
    match reply {
        SocketReplyModel::Failed(error) => HelperStepModel::Failed(error),
        _ => match helper {
            HelperModel::Connecting { request } => HelperStepModel::Perform {
                helper: HelperModel::SettingTimeout { request },
                request: SocketRequestModel::SetReadTimeout { secs: READ_TIMEOUT_SECS },
            },
            HelperModel::SettingTimeout { request } => HelperStepModel::Perform {
                helper: HelperModel::Sending,
                request: SocketRequestModel::SendOpenUrl { request },
            },
            HelperModel::Sending => HelperStepModel::Perform {
                helper: HelperModel::Receiving,
                request: SocketRequestModel::Receive,
            },
            HelperModel::Receiving => match reply {
                SocketReplyModel::Received(response) => HelperStepModel::Finished(
                    conclusion_of(response),
                ),
                _ => HelperStepModel::Perform {
                    helper: HelperModel::Receiving,
                    request: SocketRequestModel::Receive,
                },
            },
        },
    }
}

/// Makes the request of process `pid` for the URL in `args`.
pub fn open_url_request(args: &OpenUrlHelperArgs, pid: u32) -> (request: UrlOpenRequest)
    ensures
        request@ == request_of(args.url@, pid),
        request.url@ == args.url@,
        request.child_pid == pid,
        request.session_id@.len() == 0,
        is_request_id(request.request_id@, pid),
{
    proof {
        law_request_carries_url_and_pid(args.url@, pid);
    }
    UrlOpenRequest {
        request_id: "url-".to_owned().concat(decimal_string(pid as u64).as_str()),
        url: args.url.clone(),
        child_pid: pid,
        session_id: String::new(),
    }
}

/// Says what a response means for the helper.
pub fn conclude(response: SupervisorResponse) -> (result: Result<(), NonoError>)
    ensures
        verdict(result) == conclusion_of(response@),
        result is Ok <==> (response matches SupervisorResponse::UrlOpened { success, .. }
            && success),
        response matches SupervisorResponse::UrlOpened { success: false, error: Some(reason) }
            ==> result->Err_0@ == "Supervisor denied URL open: "@ + reason@,
        response matches SupervisorResponse::UrlOpened { success: false, error: None }
            ==> result->Err_0@ == "Supervisor denied URL open: "@ + "Unknown error"@,
        response matches SupervisorResponse::Other { rendering } ==> result->Err_0@
            == "Unexpected supervisor response: "@ + rendering@,
{
    match response {
        SupervisorResponse::UrlOpened { success, error } => if success {
            Ok(())
        } else {
            let reason = match error {
                Some(reason) => reason,
                None => "Unknown error".to_owned(),
            };
            Err(
                NonoError::SandboxInit(
                    "Supervisor denied URL open: ".to_owned().concat(reason.as_str()),
                ),
            )
        },
        SupervisorResponse::Other { rendering } => Err(
            NonoError::SandboxInit(
                "Unexpected supervisor response: ".to_owned().concat(rendering.as_str()),
            ),
        ),
    }
}

/// What an optional text holds.
pub open spec fn held(text: Option<String>) -> Option<Seq<char>> {
    match text {
        Some(t) => Some(t@),
        None => None,
    }
}

impl OpenUrlHelper {
    /// Starts the helper of process `pid`. `socket_path` is what the environment
    /// variable `NONO_SUPERVISOR_PATH` holds, where it is set.
    pub fn begin<E>(args: &OpenUrlHelperArgs, pid: u32, socket_path: Option<String>) -> (step:
        HelperStep<E>)
        ensures
            step@ == beginning::<E>(args.url@, pid, held(socket_path)),
    {
        match socket_path {
            Some(path) => {
                let phase = HelperPhase::Connecting { request: open_url_request(args, pid) };
                HelperStep::Perform {
                    helper: OpenUrlHelper { phase },
                    request: SocketRequest::Connect { path },
                }
            },
            None => HelperStep::Finished(
                Err(
                    NonoError::SandboxInit(
                        "NONO_SUPERVISOR_PATH not set. open-url-helper must be invoked inside a nono sandbox.".to_owned(),
                    ),
                ),
            ),
        }
    }

    /// Takes the reply to the last request and says what comes next.
    pub fn advance<E>(self, reply: SocketReply<E>) -> (step: HelperStep<E>)
        ensures
            step@ == after(self@, reply@),
    {
        let response = match reply {
            SocketReply::Failed(error) => {
                return HelperStep::Failed(error);
            },
            SocketReply::Received(response) => Some(response),
            SocketReply::Done => None,
        };
        let (phase, request) = match self.phase {
            HelperPhase::Connecting { request } => (
                HelperPhase::SettingTimeout { request },
                SocketRequest::SetReadTimeout { secs: READ_TIMEOUT_SECS },
            ),
            HelperPhase::SettingTimeout { request } => (
                HelperPhase::Sending,
                SocketRequest::SendOpenUrl { request },
            ),
            HelperPhase::Sending => (HelperPhase::Receiving, SocketRequest::Receive),
            HelperPhase::Receiving => {
                if let Some(response) = response {
                    return HelperStep::Finished(conclude(response));
                }
                (HelperPhase::Receiving, SocketRequest::Receive)
            },
        };
        HelperStep::Perform { helper: OpenUrlHelper { phase }, request }
    }
}

/// What is asked for, in order, from `step` on, where the replies are `replies`.
pub open spec fn requested<E>(
    step: HelperStepModel<E>,
    replies: Seq<SocketReplyModel<E>>,
) -> Seq<SocketRequestModel>
    decreases replies.len(),
{
    match step {
        HelperStepModel::Perform { helper, request } => if replies.len() == 0 {
            seq![request]
        } else {
            seq![request] + requested(after(helper, replies[0]), replies.drop_first())
        },
        _ => Seq::empty(),
    }
}

/// Where `replies` lead from `step`.
pub open spec fn reached<E>(
    step: HelperStepModel<E>,
    replies: Seq<SocketReplyModel<E>>,
) -> HelperStepModel<E>
    decreases replies.len(),
{
    match step {
        HelperStepModel::Perform { helper, .. } => if replies.len() == 0 {
            step
        } else {
            reached(after(helper, replies[0]), replies.drop_first())
        },
        _ => step,
    }
}

/// How many requests precede the first attempt to receive, from `helper` on.
spec fn before_receiving(helper: HelperModel) -> int {
    match helper {
        HelperModel::Connecting { .. } => 3,
        HelperModel::SettingTimeout { .. } => 2,
        HelperModel::Sending => 1,
        HelperModel::Receiving => 0,
    }
}

/// Whether the supervisor's response is the reply at `k`: nothing failed up to
/// there, and from the first attempt to receive on nothing had come.
spec fn first_response<E>(helper: HelperModel, replies: Seq<SocketReplyModel<E>>, k: int) -> bool {
    &&& before_receiving(helper) <= k < replies.len()
    &&& forall|i: int| 0 <= i < k ==> !((#[trigger] replies[i]) is Failed)
    &&& forall|i: int| before_receiving(helper) <= i < k ==> (#[trigger] replies[i]) is Done
    &&& replies[k] is Received
}

proof fn lemma_response_decides<E>(
    helper: HelperModel,
    request: SocketRequestModel,
    replies: Seq<SocketReplyModel<E>>,
    k: int,
)
    requires
        first_response(helper, replies, k),
    ensures
        reached(HelperStepModel::<E>::Perform { helper, request }, replies)
            == HelperStepModel::<E>::Finished(conclusion_of(replies[k]->Received_0)),
    decreases replies.len(),
{
    let next = after(helper, replies[0]);
    let later = replies.drop_first();
    assert(!(replies[0] is Failed));
    assert forall|i: int| 0 < i < replies.len() implies later[i - 1] == #[trigger] replies[i] by {}
    if k == 0 {
        assert(reached(next, later) == next);
    } else {
        assert(next is Perform) by {
            if helper is Receiving {
                assert(replies[0] is Done);
            }
        }
        assert forall|i: int| 0 <= i < k - 1 implies !((#[trigger] later[i]) is Failed) by {
            assert(!(replies[i + 1] is Failed));
        }
        assert forall|i: int| before_receiving(next->helper) <= i < k - 1 implies (
        #[trigger] later[i]) is Done by {
            assert(replies[i + 1] is Done);
        }
        lemma_response_decides(next->helper, next->request, later, k - 1);
    }
}

proof fn lemma_finished_by_response<E>(
    helper: HelperModel,
    request: SocketRequestModel,
    replies: Seq<SocketReplyModel<E>>,
) -> (k: int)
    requires
        reached(HelperStepModel::<E>::Perform { helper, request }, replies) is Finished,
    ensures
        first_response(helper, replies, k),
    decreases replies.len(),
{
    let next = after(helper, replies[0]);
    let later = replies.drop_first();
    if next is Perform {
        let k = lemma_finished_by_response(next->helper, next->request, later);
        assert forall|i: int| 0 <= i < k + 1 implies !((#[trigger] replies[i]) is Failed) by {
            if i > 0 {
                assert(!(later[i - 1] is Failed));
            }
        }
        assert forall|i: int| before_receiving(helper) <= i < k + 1 implies (
        #[trigger] replies[i]) is Done by {
            if i > 0 {
                assert(later[i - 1] is Done);
            }
        }
        k + 1
    } else {
        assert(reached(next, later) == next);
        0
    }
}

/// Once connected, given its timeout and sent, the request ends as the supervisor's
/// response says: that response, the first to come, decides alone.
pub proof fn law_first_response_decides<E>(
    url: Seq<char>,
    pid: u32,
    path: Seq<char>,
    replies: Seq<SocketReplyModel<E>>,
    k: int,
)
    requires
        3 <= k < replies.len(),
        forall|i: int| 0 <= i < k ==> !((#[trigger] replies[i]) is Failed),
        forall|i: int| 3 <= i < k ==> (#[trigger] replies[i]) is Done,
        replies[k] is Received,
    ensures
        reached(beginning::<E>(url, pid, Some(path)), replies) == HelperStepModel::<E>::Finished(
            conclusion_of(replies[k]->Received_0),
        ),
{
    let start = beginning::<E>(url, pid, Some(path));
    lemma_response_decides(start->helper, start->request, replies, k);
}

/// The helper succeeds only on the supervisor's word that the URL was opened, and
/// only where nothing failed before.
pub proof fn law_success_needs_the_supervisors_word<E>(
    url: Seq<char>,
    pid: u32,
    socket_path: Option<Seq<char>>,
    replies: Seq<SocketReplyModel<E>>,
)
    requires
        reached(beginning::<E>(url, pid, socket_path), replies) == HelperStepModel::<E>::Finished(
            Ok(()),
        ),
    ensures
        socket_path is Some,
        exists|k: int|
            3 <= k < replies.len() && (#[trigger] replies[k] matches SocketReplyModel::Received(
                response,
            ) && response matches SupervisorResponseModel::UrlOpened { success: true, .. })
                && forall|i: int| 0 <= i < k ==> !((#[trigger] replies[i]) is Failed),
{
    let start = beginning::<E>(url, pid, socket_path);
    if socket_path is Some {
        let k = lemma_finished_by_response(start->helper, start->request, replies);
        lemma_response_decides(start->helper, start->request, replies, k);
        assert(conclusion_of(replies[k]->Received_0) is Ok);
        assert(replies[k] is Received);
    }
}

/// A failure of the transport ends the helper with that very failure.
pub proof fn law_transport_failure_is_passed_on<E>(
    url: Seq<char>,
    pid: u32,
    path: Seq<char>,
    replies: Seq<SocketReplyModel<E>>,
    i: int,
)
    requires
        0 <= i < replies.len(),
        i < requested(beginning::<E>(url, pid, Some(path)), replies).len(),
        replies[i] is Failed,
    ensures
        reached(beginning::<E>(url, pid, Some(path)), replies) == HelperStepModel::<E>::Failed(
            replies[i]->Failed_0,
        ),
{
    lemma_failure_is_passed_on(beginning::<E>(url, pid, Some(path)), replies, i);
}

proof fn lemma_failure_is_passed_on<E>(
    step: HelperStepModel<E>,
    replies: Seq<SocketReplyModel<E>>,
    i: int,
)
    requires
        0 <= i < replies.len(),
        i < requested(step, replies).len(),
        replies[i] is Failed,
    ensures
        reached(step, replies) == HelperStepModel::<E>::Failed(replies[i]->Failed_0),
    decreases replies.len(),
{
    let next = after(step->helper, replies[0]);
    let later = replies.drop_first();
    assert(requested(step, replies) == seq![step->request] + requested(next, later));
    if i == 0 {
        assert(reached(next, later) == next);
    } else {
        assert(later[i - 1] == replies[i]);
        lemma_failure_is_passed_on(next, later, i - 1);
    }
}

/// What the helper asks for comes in one order: the connection, the read timeout,
/// the sending of the one request, and from then on only responses. So the request
/// is sent once at most, and nothing is received without a timeout.
pub proof fn law_helper_keeps_its_order<E>(
    url: Seq<char>,
    pid: u32,
    path: Seq<char>,
    replies: Seq<SocketReplyModel<E>>,
    i: int,
)
    requires
        0 <= i < requested(beginning::<E>(url, pid, Some(path)), replies).len(),
    ensures
        requested(beginning::<E>(url, pid, Some(path)), replies)[i] == if i == 0 {
            SocketRequestModel::Connect { path }
        } else if i == 1 {
            SocketRequestModel::SetReadTimeout { secs: READ_TIMEOUT_SECS }
        } else if i == 2 {
            SocketRequestModel::SendOpenUrl { request: request_of(url, pid) }
        } else {
            SocketRequestModel::Receive
        },
{
    let start = beginning::<E>(url, pid, Some(path));
    lemma_order(start, replies, i, path, request_of(url, pid), 0);
}

spec fn in_place(
    request: SocketRequestModel,
    at: int,
    path: Seq<char>,
    open: UrlOpenRequestModel,
) -> bool {
    request == if at == 0 {
        SocketRequestModel::Connect { path }
    } else if at == 1 {
        SocketRequestModel::SetReadTimeout { secs: READ_TIMEOUT_SECS }
    } else if at == 2 {
        SocketRequestModel::SendOpenUrl { request: open }
    } else {
        SocketRequestModel::Receive
    }
}

proof fn lemma_order<E>(
    step: HelperStepModel<E>,
    replies: Seq<SocketReplyModel<E>>,
    i: int,
    path: Seq<char>,
    open: UrlOpenRequestModel,
    at: int,
)
    requires
        0 <= i < requested(step, replies).len(),
        0 <= at,
        in_place(step->request, at, path, open),
        step->helper == if at == 0 {
            HelperModel::Connecting { request: open }
        } else if at == 1 {
            HelperModel::SettingTimeout { request: open }
        } else if at == 2 {
            HelperModel::Sending
        } else {
            HelperModel::Receiving
        },
    ensures
        in_place(requested(step, replies)[i], at + i, path, open),
    decreases replies.len(),
{
    if replies.len() > 0 {
        let next = after(step->helper, replies[0]);
        let later = replies.drop_first();
        assert(requested(step, replies) == seq![step->request] + requested(next, later));
        if i > 0 {
            lemma_order(next, later, i - 1, path, open, at + 1);
        }
    }
}

/// Whether `id` identifies a request of process `pid`: `url-` and the pid in decimal.
pub open spec fn is_request_id(id: Seq<char>, pid: u32) -> bool {
    &&& id.len() > 4
    &&& id.take(4) == seq!['u', 'r', 'l', '-']
    &&& denotes(id.skip(4), pid as int)
}

/// A request carries the URL character for character and the pid, is identified by
/// that pid, and names no session.
pub proof fn law_request_carries_url_and_pid(url: Seq<char>, pid: u32)
    ensures
        request_of(url, pid).url == url,
        request_of(url, pid).child_pid == pid,
        request_of(url, pid).session_id.len() == 0,
        is_request_id(request_of(url, pid).request_id, pid),
{
    reveal_strlit("url-");
    law_decimal_denotes(pid as nat);
    let id = request_of(url, pid).request_id;
    assert(id.take(4) =~= seq!['u', 'r', 'l', '-']);
    assert(id.skip(4) =~= decimal(pid as nat));
}

/// What the helper asks for is fixed by the number of the request: to connect to the
/// socket that the environment names, to let reads time out after five seconds, to
/// send a request with the URL and the pid of the process, and from then on to
/// receive.
pub proof fn law_supervisor_is_asked_for_the_url<E>(
    url: Seq<char>,
    pid: u32,
    path: Seq<char>,
    replies: Seq<SocketReplyModel<E>>,
    i: int,
)
    requires
        0 <= i < requested(beginning::<E>(url, pid, Some(path)), replies).len(),
    ensures
        match requested(beginning::<E>(url, pid, Some(path)), replies)[i] {
            SocketRequestModel::Connect { path: p } => i == 0 && p == path,
            SocketRequestModel::SetReadTimeout { secs } => i == 1 && secs == 5,
            SocketRequestModel::SendOpenUrl { request } => {
                &&& i == 2
                &&& request.url == url
                &&& request.child_pid == pid
                &&& request.session_id.len() == 0
                &&& is_request_id(request.request_id, pid)
            },
            SocketRequestModel::Receive => i >= 3,
        },
{
    law_helper_keeps_its_order(url, pid, path, replies, i);
    law_request_carries_url_and_pid(url, pid);
}

/// As long as nothing fails and no response has come, the helper goes on: each reply
/// is followed by the next request.
pub proof fn law_helper_goes_on_until_answered<E>(
    url: Seq<char>,
    pid: u32,
    path: Seq<char>,
    replies: Seq<SocketReplyModel<E>>,
)
    requires
        forall|i: int| 0 <= i < replies.len() ==> !((#[trigger] replies[i]) is Failed),
        forall|i: int| 3 <= i < replies.len() ==> (#[trigger] replies[i]) is Done,
    ensures
        requested(beginning::<E>(url, pid, Some(path)), replies).len() == replies.len() + 1,
        reached(beginning::<E>(url, pid, Some(path)), replies) is Perform,
{
    let start = beginning::<E>(url, pid, Some(path));
    lemma_goes_on(start->helper, start->request, replies);
}

proof fn lemma_goes_on<E>(
    helper: HelperModel,
    request: SocketRequestModel,
    replies: Seq<SocketReplyModel<E>>,
)
    requires
        forall|i: int| 0 <= i < replies.len() ==> !((#[trigger] replies[i]) is Failed),
        forall|i: int|
            before_receiving(helper) <= i < replies.len() ==> (#[trigger] replies[i]) is Done,
    ensures
        requested(HelperStepModel::<E>::Perform { helper, request }, replies).len() == replies.len()
            + 1,
        reached(HelperStepModel::<E>::Perform { helper, request }, replies) is Perform,
    decreases replies.len(),
{
    if replies.len() > 0 {
        let next = after(helper, replies[0]);
        let later = replies.drop_first();
        assert(!(replies[0] is Failed));
        assert(next is Perform) by {
            if helper is Receiving {
                assert(replies[0] is Done);
            }
        }
        assert forall|i: int| 0 <= i < later.len() implies !((#[trigger] later[i]) is Failed) by {
            assert(!(replies[i + 1] is Failed));
        }
        assert forall|i: int| before_receiving(next->helper) <= i < later.len() implies (
        #[trigger] later[i]) is Done by {
            assert(replies[i + 1] is Done);
        }
        lemma_goes_on(next->helper, next->request, later);
    }
}

/// Where the environment names no socket, the helper is refused at once, and nothing
/// is asked of any socket.
pub proof fn law_no_socket_no_request<E>(
    url: Seq<char>,
    pid: u32,
    replies: Seq<SocketReplyModel<E>>,
)
    ensures
        requested(beginning::<E>(url, pid, None), replies).len() == 0,
        reached(beginning::<E>(url, pid, None), replies) == HelperStepModel::<E>::Finished(
            Err(
                "NONO_SUPERVISOR_PATH not set. open-url-helper must be invoked inside a nono sandbox."@,
            ),
        ),
{
}

/// A response counts as success exactly where it says that the URL was opened. A
/// denial is reported with its reason, or as an unknown error where it gives none;
/// any other response is reported as it is shown.
pub proof fn law_only_an_opened_url_is_success(response: SupervisorResponseModel)
    ensures
        conclusion_of(response) is Ok <==> (response is UrlOpened && response->success),
        response is UrlOpened && !response->success && response->error is Some ==> conclusion_of(
            response,
        )->Err_0 == "Supervisor denied URL open: "@ + response->error->Some_0,
        response is UrlOpened && !response->success && response->error is None ==> conclusion_of(
            response,
        )->Err_0 == "Supervisor denied URL open: "@ + "Unknown error"@,
        response is Other ==> conclusion_of(response)->Err_0 == "Unexpected supervisor response: "@
            + response->rendering,
{
}

/// A model is of the same kind as its request and holds the same texts and numbers.
pub proof fn law_model_is_faithful(request: SocketRequest)
    ensures
        match (request, request@) {
            (SocketRequest::Connect { path: p }, SocketRequestModel::Connect { path: q }) => p@
                == q,
            (
                SocketRequest::SetReadTimeout { secs: a },
                SocketRequestModel::SetReadTimeout { secs: b },
            ) => a == b,
            (
                SocketRequest::SendOpenUrl { request: a },
                SocketRequestModel::SendOpenUrl { request: b },
            ) => {
                &&& a.request_id@ == b.request_id
                &&& a.url@ == b.url
                &&& a.child_pid == b.child_pid
                &&& a.session_id@ == b.session_id
            },
            (SocketRequest::Receive, SocketRequestModel::Receive) => true,
            _ => false,
        },
{
}

} // verus!
