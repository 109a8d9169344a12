//! Lifecycle control: terminate, pause and resume a process by pid, after
//! validating the pid against the latest snapshot, plus parsing of textual
//! pids. The operating-system signals travel through `nix`.

use vstd::prelude::*;

use crate::record::Snapshot;

verus! {

/// Why a lifecycle operation failed.
#[derive(Clone, Copy, Debug, PartialEq, Eq, Structural)]
pub enum ControlError {
    /// The pid is absent from the latest snapshot; no signal was sent.
    NotFound,
    /// The operating system refused the signal for lack of privilege.
    PermissionDenied,
    /// The process was gone by the time the signal was sent.
    AlreadyExited,
    /// The pid text is not numeric, or the value cannot name one process.
    InvalidInput,
}

/// The largest pid the signed pid type of the signal interface can carry.
pub const MAX_PID: u32 = 0x7FFF_FFFF;

/// Whether a pid can name a single process in a signal call: positive and
/// within the signed range. Zero and negative values would address whole
/// process groups.
pub open spec fn pid_in_range(pid: u32) -> bool {
    1 <= pid <= MAX_PID
}

/// The outcomes a dispatched signal can have.
pub open spec fn signal_outcome(r: Result<(), ControlError>) -> bool {
    match r {
        Ok(u) => u == (),
        Err(e) => e == ControlError::PermissionDenied || e == ControlError::AlreadyExited,
    }
}

/// Relies on `nix::sys::signal::kill` with `SIGKILL`: signals the one
/// process named by the positive `pid`; `Ok` when delivered, `EPERM` when
/// the caller lacks privilege, `ESRCH` when the process is already gone.
#[verifier::external_body]
fn send_sigkill(pid: i32) -> (r: Result<(), ControlError>)
    requires
        pid >= 1,
    ensures
        signal_outcome(r),
{
    match nix::sys::signal::kill(
        nix::unistd::Pid::from_raw(pid),
        nix::sys::signal::Signal::SIGKILL,
    ) {
        Ok(()) => Ok(()),
        Err(nix::errno::Errno::EPERM) => Err(ControlError::PermissionDenied),
        Err(_) => Err(ControlError::AlreadyExited),
    }
}

/// Relies on `nix::sys::signal::kill` with `SIGSTOP`: signals the one
/// process named by the positive `pid`; `Ok` when delivered, `EPERM` when
/// the caller lacks privilege, `ESRCH` when the process is already gone.
#[verifier::external_body]
fn send_sigstop(pid: i32) -> (r: Result<(), ControlError>)
    requires
        pid >= 1,
    ensures
        signal_outcome(r),
{
    match nix::sys::signal::kill(
        nix::unistd::Pid::from_raw(pid),
        nix::sys::signal::Signal::SIGSTOP,
    ) {
        Ok(()) => Ok(()),
        Err(nix::errno::Errno::EPERM) => Err(ControlError::PermissionDenied),
        Err(_) => Err(ControlError::AlreadyExited),
    }
}

/// Relies on `nix::sys::signal::kill` with `SIGCONT`: signals the one
/// process named by the positive `pid`; `Ok` when delivered, `EPERM` when
/// the caller lacks privilege, `ESRCH` when the process is already gone.
#[verifier::external_body]
fn send_sigcont(pid: i32) -> (r: Result<(), ControlError>)
    requires
        pid >= 1,
    ensures
        signal_outcome(r),
{
    match nix::sys::signal::kill(
        nix::unistd::Pid::from_raw(pid),
        nix::sys::signal::Signal::SIGCONT,
    ) {
        Ok(()) => Ok(()),
        Err(nix::errno::Errno::EPERM) => Err(ControlError::PermissionDenied),
        Err(_) => Err(ControlError::AlreadyExited),
    }
}

/// What every lifecycle operation promises: out-of-range pids are rejected
/// as invalid with no signal sent, pids missing from the snapshot are
/// rejected as not found with no signal sent, and for a validated pid the
/// result is the signal's own outcome.
pub open spec fn lifecycle_contract(
    snapshot: Snapshot,
    pid: u32,
    r: Result<(), ControlError>,
) -> bool {
    &&& !pid_in_range(pid) ==> r == Err::<(), ControlError>(ControlError::InvalidInput)
    &&& pid_in_range(pid) && !snapshot.spec_contains_pid(pid) ==> r == Err::<(), ControlError>(
        ControlError::NotFound,
    )
    &&& pid_in_range(pid) && snapshot.spec_contains_pid(pid) ==> signal_outcome(r)
}

/// Requests immediate, non-catchable termination of `pid`, validating it
/// against the latest snapshot first.
pub fn terminate(snapshot: &Snapshot, pid: u32) -> (r: Result<(), ControlError>)
    ensures
        lifecycle_contract(*snapshot, pid, r),
{
    if pid == 0 || pid > MAX_PID {
        return Err(ControlError::InvalidInput);
    }
    if !snapshot.contains_pid(pid) {
        return Err(ControlError::NotFound);
    }
    send_sigkill(pid as i32)
}

/// Requests that `pid` be suspended until resumed, validating it against
/// the latest snapshot first.
pub fn pause(snapshot: &Snapshot, pid: u32) -> (r: Result<(), ControlError>)
    ensures
        lifecycle_contract(*snapshot, pid, r),
{
    if pid == 0 || pid > MAX_PID {
        return Err(ControlError::InvalidInput);
    }
    if !snapshot.contains_pid(pid) {
        return Err(ControlError::NotFound);
    }
    send_sigstop(pid as i32)
}

/// Requests that a suspended `pid` resume scheduling, validating it against
/// the latest snapshot first. Resuming a process that was never paused has
/// no effect and is no error.
pub fn resume(snapshot: &Snapshot, pid: u32) -> (r: Result<(), ControlError>)
    ensures
        lifecycle_contract(*snapshot, pid, r),
{
    if pid == 0 || pid > MAX_PID {
        return Err(ControlError::InvalidInput);
    }
    if !snapshot.contains_pid(pid) {
        return Err(ControlError::NotFound);
    }
    send_sigcont(pid as i32)
}

/// The numeric value of a decimal digit sequence.
pub open spec fn decimal_value(s: Seq<char>) -> int
    decreases s.len(),
{
    if s.len() == 0 {
        0
    } else {
        decimal_value(s.drop_last()) * 10 + (s.last() as int - '0' as int)
    }
}

/// Every character is a decimal digit.
pub open spec fn all_digits(s: Seq<char>) -> bool {
    forall|i: int| 0 <= i < s.len() ==> '0' <= #[trigger] s[i] <= '9'
}

/// Digit sequences have non-negative values.
proof fn lemma_decimal_nonneg(s: Seq<char>)
    requires
        all_digits(s),
    ensures
        decimal_value(s) >= 0,
    decreases s.len(),
{
    if s.len() > 0 {
        assert forall|j: int| 0 <= j < s.drop_last().len() implies '0' <= #[trigger] s.drop_last()[j]
            <= '9' by {
            assert(s.drop_last()[j] == s[j]);
        }
        lemma_decimal_nonneg(s.drop_last());
        assert(s.last() == s[s.len() - 1]);
    }
}

/// No prefix of a digit sequence exceeds the whole.
proof fn lemma_decimal_prefix_le(s: Seq<char>, i: int)
    requires
        all_digits(s),
        0 <= i <= s.len(),
    ensures
        decimal_value(s.take(i)) <= decimal_value(s),
    decreases s.len() - i,
{
    if i == s.len() {
        assert(s.take(i) =~= s);
    } else {
        assert(s.take(i + 1).drop_last() =~= s.take(i));
        assert(s.take(i + 1).last() == s[i]);
        assert forall|j: int| 0 <= j < s.take(i).len() implies '0' <= #[trigger] s.take(i)[j]
            <= '9' by {
            assert(s.take(i)[j] == s[j]);
        }
        lemma_decimal_nonneg(s.take(i));
        assert(decimal_value(s.take(i + 1)) >= decimal_value(s.take(i)));
        lemma_decimal_prefix_le(s, i + 1);
    }
}

/// Parses a textual pid: accepted exactly when the text is non-empty, all
/// decimal digits, and its value fits the pid type; rejected as invalid
/// input otherwise.
pub fn parse_pid(s: &str) -> (r: Result<u32, ControlError>)
    ensures
        match r {
            Ok(v) => {
                &&& s@.len() > 0
                &&& all_digits(s@)
                &&& decimal_value(s@) <= u32::MAX
                &&& v == decimal_value(s@)
            },
            Err(e) => {
                &&& e == ControlError::InvalidInput
                &&& (s@.len() == 0 || !all_digits(s@) || decimal_value(s@) > u32::MAX)
            },
        },
{
    let n = s.unicode_len();
    if n == 0 {
        return Err(ControlError::InvalidInput);
    }
    let mut acc: u32 = 0;
    let mut i: usize = 0;
    proof {
        assert(s@.take(0int) =~= Seq::<char>::empty());
    }
    while i < n
        invariant
            n == s@.len(),
            0 <= i <= n,
            all_digits(s@.take(i as int)),
            acc == decimal_value(s@.take(i as int)),
        decreases n - i,
    {
        let c = s.get_char(i);
        if c < '0' || c > '9' {
            proof {
                assert(!('0' <= s@[i as int] <= '9'));
            }
            return Err(ControlError::InvalidInput);
        }
        let d: u32 = (c as u32) - 48;
        let wide: u64 = (acc as u64) * 10 + (d as u64);
        proof {
            assert(s@.take(i + 1).drop_last() =~= s@.take(i as int));
            assert(s@.take(i + 1).last() == s@[i as int]);
            assert(all_digits(s@.take(i + 1))) by {
                assert(forall|j: int|
                    0 <= j < i ==> s@.take(i + 1)[j] == #[trigger] s@.take(i as int)[j]);
            }
            assert(decimal_value(s@.take(i + 1)) == wide);
        }
        if wide > 0xFFFF_FFFF {
            proof {
                if all_digits(s@) {
                    lemma_decimal_prefix_le(s@, i + 1);
                }
            }
            return Err(ControlError::InvalidInput);
        }
        acc = wide as u32;
        i = i + 1;
    }
    proof {
        assert(s@.take(n as int) =~= s@);
    }
    Ok(acc)
}

} // verus!
