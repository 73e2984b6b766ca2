//! The decision logic of nono's command line runtime, verified with Verus: confining
//! a run to a cgroup v2 leaf, and asking the supervisor to open a URL.
//!
//! Nothing here performs I/O. What has to be done is handed out as a request, and
//! what came of it is handed back as a reply.
pub mod attach;
pub mod decimal;
pub mod delegation;
pub mod error;
pub mod leaf;
pub mod open_url;
pub mod path;
mod process;
pub mod request;
pub mod teardown;
pub mod text;
