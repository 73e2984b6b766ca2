//! What the logic asks the surrounding program to do to the file system, and what
//! it is told in return.
use vstd::prelude::*;

verus! {

/// One thing to be done.
#[derive(Debug, PartialEq, Eq)]
pub enum Request {
    /// Read the whole file at `path` as text.
    Read { path: String },
    /// Find out whether `path` is a directory.
    ProbeDir { path: String },
    /// Create the directory `path`, which must not exist yet.
    CreateDir { path: String },
    /// Write `value` to the file at `path`.
    Write { path: String, value: String },
    /// Open the file at `path` for writing and keep it open.
    OpenForWriting { path: String },
    /// Let `millis` milliseconds pass.
    Sleep { millis: u64 },
    /// Remove the empty directory `path`.
    RemoveDir { path: String },
}

/// How a request went. `Ok` holds the text that was read, and nothing in particular
/// for a request that reads none. `Err` holds the text of the system's error; for a
/// probe it says that there is no such directory.
pub type Reply = Result<String, String>;

/// A request, with its texts as sequences of characters.
pub enum RequestModel {
    Read { path: Seq<char> },
    ProbeDir { path: Seq<char> },
    CreateDir { path: Seq<char> },
    Write { path: Seq<char>, value: Seq<char> },
    OpenForWriting { path: Seq<char> },
    Sleep { millis: u64 },
    RemoveDir { path: Seq<char> },
}

impl View for Request {
    type V = RequestModel;

    open spec fn view(&self) -> RequestModel {
        match self {
            Request::Read { path } => RequestModel::Read { path: path@ },
            Request::ProbeDir { path } => RequestModel::ProbeDir { path: path@ },
            Request::CreateDir { path } => RequestModel::CreateDir { path: path@ },
            Request::Write { path, value } => RequestModel::Write { path: path@, value: value@ },
            Request::OpenForWriting { path } => RequestModel::OpenForWriting { path: path@ },
            Request::Sleep { millis } => RequestModel::Sleep { millis: *millis },
            Request::RemoveDir { path } => RequestModel::RemoveDir { path: path@ },
        }
    }
}

/// A reply, with its text as a sequence of characters.
pub type ReplyModel = Result<Seq<char>, Seq<char>>;

/// What a reply says.
pub open spec fn said(reply: Reply) -> ReplyModel {
    match reply {
        Ok(text) => Ok(text@),
        Err(cause) => Err(cause@),
    }
}

/// A model is of the same kind as its request and holds the same texts and numbers.
pub proof fn law_model_is_faithful(request: Request)
    ensures
        match (request, request@) {
            (Request::Read { path: p }, RequestModel::Read { path: q }) => p@ == q,
            (Request::ProbeDir { path: p }, RequestModel::ProbeDir { path: q }) => p@ == q,
            (Request::CreateDir { path: p }, RequestModel::CreateDir { path: q }) => p@ == q,
            (
                Request::Write { path: p, value: v },
                RequestModel::Write { path: q, value: w },
            ) => p@ == q && v@ == w,
            (Request::OpenForWriting { path: p }, RequestModel::OpenForWriting { path: q }) => p@
                == q,
            (Request::Sleep { millis: m }, RequestModel::Sleep { millis: n }) => m == n,
            (Request::RemoveDir { path: p }, RequestModel::RemoveDir { path: q }) => p@ == q,
            _ => false,
        },
{
}

/// What a reply says is the text that it holds, as a success or as a failure.
pub proof fn law_said_is_faithful(reply: Reply)
    ensures
        match (reply, said(reply)) {
            (Ok(text), Ok(s)) => text@ == s,
            (Err(cause), Err(s)) => cause@ == s,
            _ => false,
        },
{
}

} // verus!
