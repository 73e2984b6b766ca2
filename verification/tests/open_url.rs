use nono_cli::error::NonoError;
use nono_cli::open_url::{
    conclude, open_url_request, HelperStep, OpenUrlHelper, OpenUrlHelperArgs, SocketReply,
    SocketRequest, SupervisorResponse, UrlOpenRequest,
};

const URL: &str = "https://example.com/login?x=1";

#[derive(Debug, PartialEq)]
enum End {
    Waiting,
    Finished(Result<(), NonoError>),
    Failed(u8),
}

fn run(socket_path: Option<&str>, replies: Vec<SocketReply<u8>>) -> (Vec<SocketRequest>, End) {
    let args = OpenUrlHelperArgs { url: URL.to_string() };
    let mut step = OpenUrlHelper::begin(&args, 77, socket_path.map(|path| path.to_string()));
    let mut asked = Vec::new();
    let mut replies = replies.into_iter();
    loop {
        match step {
            HelperStep::Perform { helper, request } => {
                asked.push(request);
                match replies.next() {
                    Some(reply) => step = helper.advance(reply),
                    None => return (asked, End::Waiting),
                }
            }
            HelperStep::Finished(result) => return (asked, End::Finished(result)),
            HelperStep::Failed(error) => return (asked, End::Failed(error)),
        }
    }
}

fn opened(success: bool, error: Option<&str>) -> SupervisorResponse {
    SupervisorResponse::UrlOpened { success, error: error.map(|text| text.to_string()) }
}

fn refused(text: &str) -> Result<(), NonoError> {
    Err(NonoError::SandboxInit(text.to_string()))
}

fn expected_request() -> UrlOpenRequest {
    UrlOpenRequest {
        request_id: "url-77".to_string(),
        url: URL.to_string(),
        child_pid: 77,
        session_id: String::new(),
    }
}

#[test]
fn request_carries_url_and_pid() {
    let args = OpenUrlHelperArgs { url: URL.to_string() };
    assert_eq!(open_url_request(&args, 77), expected_request());
}

#[test]
fn responses_are_concluded() {
    assert_eq!(conclude(opened(true, None)), Ok(()));
    assert_eq!(conclude(opened(true, Some("ignored"))), Ok(()));
    assert_eq!(
        conclude(opened(false, Some("not allowed"))),
        refused("Supervisor denied URL open: not allowed")
    );
    assert_eq!(
        conclude(opened(false, None)),
        refused("Supervisor denied URL open: Unknown error")
    );
    assert_eq!(
        conclude(SupervisorResponse::Other { rendering: "Decision { granted: true }".to_string() }),
        refused("Unexpected supervisor response: Decision { granted: true }")
    );
}

#[test]
fn missing_socket_path_is_refused_before_anything_else() {
    let (asked, end) = run(None, vec![]);
    assert!(asked.is_empty());
    assert_eq!(
        end,
        End::Finished(refused(
            "NONO_SUPERVISOR_PATH not set. open-url-helper must be invoked inside a nono sandbox."
        ))
    );
}

#[test]
fn asks_the_supervisor_in_order() {
    let (asked, end) = run(
        Some("/run/nono.sock"),
        vec![
            SocketReply::Done,
            SocketReply::Done,
            SocketReply::Done,
            SocketReply::Received(opened(true, None)),
        ],
    );
    assert_eq!(
        asked,
        vec![
            SocketRequest::Connect { path: "/run/nono.sock".to_string() },
            SocketRequest::SetReadTimeout { secs: 5 },
            SocketRequest::SendOpenUrl { request: expected_request() },
            SocketRequest::Receive,
        ]
    );
    assert_eq!(end, End::Finished(Ok(())));
}

#[test]
fn supervisors_refusal_is_reported() {
    let (_, end) = run(
        Some("s"),
        vec![
            SocketReply::Done,
            SocketReply::Done,
            SocketReply::Done,
            SocketReply::Received(opened(false, None)),
        ],
    );
    assert_eq!(end, End::Finished(refused("Supervisor denied URL open: Unknown error")));
}

#[test]
fn transport_failures_are_passed_on() {
    for i in 0..4u8 {
        let mut replies: Vec<SocketReply<u8>> = Vec::new();
        for _ in 0..i {
            replies.push(SocketReply::Done);
        }
        replies.push(SocketReply::Failed(i));
        let (asked, end) = run(Some("s"), replies);
        assert_eq!(asked.len(), usize::from(i) + 1);
        assert_eq!(end, End::Failed(i));
    }
}

#[test]
fn keeps_receiving_until_a_response_comes() {
    let (asked, end) = run(
        Some("s"),
        vec![SocketReply::Done, SocketReply::Done, SocketReply::Done, SocketReply::Done],
    );
    assert_eq!(asked.len(), 5);
    assert_eq!(asked[4], SocketRequest::Receive);
    assert_eq!(end, End::Waiting);
}
