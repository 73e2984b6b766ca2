//! What the system says of the running process.
use vstd::prelude::*;

verus! {

/// Calls `nix::unistd::Uid::current`, and `Uid::as_raw` on what it returns: the
/// real user id of the calling process. Nothing is claimed of it: it depends on
/// who runs the process.
#[verifier::external_body]
pub(crate) fn current_uid() -> (uid: u32) {
    nix::unistd::Uid::current().as_raw()
}

/// Calls `nix::unistd::getpid`, and `Pid::as_raw` on what it returns: the id of the
/// calling process. Nothing is claimed of it: the system picks it.
#[verifier::external_body]
pub(crate) fn own_pid() -> (pid: i32) {
    nix::unistd::getpid().as_raw()
}

/// Whether `uid` is what the system gives as the user id of the calling process: a
/// value that [`current_uid`] returns.
pub closed spec fn is_current_uid(uid: u32) -> bool {
    call_ensures(current_uid, (), uid)
}

/// Whether `pid` is what the system gives as the id of the calling process: a value
/// that [`own_pid`] returns.
pub closed spec fn is_own_pid(pid: i32) -> bool {
    call_ensures(own_pid, (), pid)
}

/// Calls `source` and returns what it returns.
fn ask<T, F: Fn() -> T>(source: F) -> (answer: T)
    requires
        call_requires(source, ()),
    ensures
        call_ensures(source, (), answer),
{
    source()
}

/// Returns the user id of the calling process, as the system gives it.
pub(crate) fn ask_current_uid() -> (uid: u32)
    ensures
        is_current_uid(uid),
{
    ask(current_uid)
}

/// Returns the id of the calling process, as the system gives it.
pub(crate) fn ask_own_pid() -> (pid: i32)
    ensures
        is_own_pid(pid),
{
    ask(own_pid)
}

} // verus!
