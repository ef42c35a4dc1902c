//! Pausing, resuming and stopping a scan.
//!
//! One byte drives a running scan. The commands write it, the scan reads it between any two of
//! its steps.

use vstd::prelude::*;

verus! {

/// The scan goes on.
pub const RUNNING: u8 = 0;

/// The scan waits.
pub const PAUSED: u8 = 1;

/// The scan ends with what it has found.
pub const STOPPED: u8 = 2;

/// How long a paused scan sleeps before it reads its control byte again, in milliseconds.
pub const PAUSE_MILLIS: u64 = 150;

/// What a scan does on reading its control byte.
#[derive(Clone, Copy, Debug, PartialEq, Eq, Structural)]
pub enum Check {
    /// Sleep, then read the byte again.
    Wait,
    /// Give up the walk.
    Stop,
    /// Take the next step.
    Go,
}

/// What a scan that reads `control` does.
pub open spec fn check_of(control: u8) -> Check {
    if control == PAUSED {
        Check::Wait
    } else if control == STOPPED {
        Check::Stop
    } else {
        Check::Go
    }
}

/// The control byte of the current scan, if there is one, after `command` was written to it.
pub open spec fn commanded(current: Option<u8>, command: u8) -> Option<u8> {
    match current {
        Some(_) => Some(command),
        None => None,
    }
}

/// The control byte after a request to stop; without a scan there is nothing to stop.
pub fn stop_scan(current: Option<u8>) -> (after: Option<u8>)
    ensures
        after == commanded(current, STOPPED),
        after == if current is Some {
            Some(2u8)
        } else {
            None
        },
{
    match current {
        Some(_) => Some(STOPPED),
        None => None,
    }
}

/// The control byte after a request to pause; without a scan there is nothing to pause.
pub fn pause_scan(current: Option<u8>) -> (after: Option<u8>)
    ensures
        after == commanded(current, PAUSED),
        after == if current is Some {
            Some(1u8)
        } else {
            None
        },
{
    match current {
        Some(_) => Some(PAUSED),
        None => None,
    }
}

/// The control byte after a request to go on; without a scan there is nothing to resume.
pub fn resume_scan(current: Option<u8>) -> (after: Option<u8>)
    ensures
        after == commanded(current, RUNNING),
        after == if current is Some {
            Some(0u8)
        } else {
            None
        },
{
    match current {
        Some(_) => Some(RUNNING),
        None => None,
    }
}

/// The three bytes are told apart, and a paused scan looks again after 150 milliseconds.
pub proof fn law_control_bytes()
    ensures
        RUNNING == 0,
        PAUSED == 1,
        STOPPED == 2,
        PAUSE_MILLIS == 150,
{
}

/// A scan waits on the one byte that says so, stops on the one that says so, and goes on with its
/// work on all others.
pub proof fn law_checks(control: u8)
    ensures
        check_of(control) == Check::Wait <==> control == 1,
        check_of(control) == Check::Stop <==> control == 2,
        check_of(control) == Check::Go <==> control != 1 && control != 2,
{
}

/// A command reaches the scan that there is, whatever its byte held, and none where there is none.
pub proof fn law_commands(current: Option<u8>, command: u8)
    ensures
        commanded(current, command) is Some <==> current is Some,
        current is Some ==> commanded(current, command) == Some(command),
{
}

/// The last command decides: whatever the byte held before, a scan that reads it next stops after
/// a request to stop, waits after a request to pause and goes on after a request to resume.
pub proof fn law_last_command_decides(before: u8)
    ensures
        check_of(commanded(Some(before), STOPPED)->0) == Check::Stop,
        check_of(commanded(Some(before), PAUSED)->0) == Check::Wait,
        check_of(commanded(Some(before), RUNNING)->0) == Check::Go,
{
}

} // verus!
