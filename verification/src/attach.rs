//! The child puts **itself** into its cgroup: it writes its own pid to the inherited
//! member list before it can fork or exec, so every descendant it later spawns is
//! inside by construction.
//!
//! Nothing here allocates or takes a lock, so that it may run between fork and
//! exec.
use crate::decimal::{ascii_denotes, format_pid_decimal, pid_decimal, MAX_PID_DIGITS};
use crate::process::{ask_own_pid, is_own_pid};
use vstd::prelude::*;

verus! {

/// Renders the pid of the calling process into `buf`, as what the child has to
/// write to the member list, and returns the populated trailing slice.
pub fn self_attach_payload(buf: &mut [u8; MAX_PID_DIGITS]) -> (payload: &[u8])
    ensures
        exists|pid: i32| #[trigger] is_own_pid(pid) && payload@ == pid_decimal(pid),
        exists|pid: i32| #[trigger] is_own_pid(pid) && ascii_denotes(
            payload@,
            if pid > 0 {
                pid as int
            } else {
                0
            },
        ),
        payload@.len() <= MAX_PID_DIGITS,
        final(buf)@ == old(buf)@.take(MAX_PID_DIGITS - payload@.len()) + payload@,
{
    let pid: i32 = ask_own_pid();
    format_pid_decimal(pid, buf)
}

/// Tells whether the child is attached, given what the write of `payload` returned:
/// the number of bytes written, or a negative number on failure. A short or failed
/// write is a failure; the caller must then exit the child (fail-closed: never run
/// unconfined).
#[must_use]
pub fn self_attach_succeeded(payload: &[u8], written: isize) -> (attached: bool)
    ensures
        attached == (written == payload@.len()),
{
    written >= 0 && written as usize == payload.len()
}

/// What is written for a pid is never empty, so a write that failed, or wrote
/// nothing, never passes for a complete one.
pub proof fn law_failed_write_is_no_attachment(pid: i32, written: int)
    requires
        written <= 0,
    ensures
        written != pid_decimal(pid).len(),
{
    crate::decimal::law_pid_decimal_fits(pid);
}

} // verus!
