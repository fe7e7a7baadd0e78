//! Whether a command-line run re-attaches to its parent's console.
use vstd::prelude::*;

verus! {

/// A command-line mode (`--once`, `--diag`) launched without redirected
/// standard handles and without an inherited standard output attaches to the
/// parent console so that its output reaches the terminal; a redirected run
/// keeps its pipe, and the tray never attaches.
pub fn should_attach_parent_console(
    cli_mode: bool,
    has_explicit_std_handles: bool,
    has_stdout_handle: bool,
) -> (r: bool)
    ensures
        r == (cli_mode && !has_explicit_std_handles && !has_stdout_handle),
{
    cli_mode && !has_explicit_std_handles && !has_stdout_handle
}

/// The startup-information flag saying the launcher handed the process
/// explicit standard handles.
pub const STARTF_USESTDHANDLES: u32 = 0x0000_0100;

/// Whether a process's startup flags carry `STARTF_USESTDHANDLES` (bit 8),
/// that is, whether the launcher handed it explicit standard handles.
pub fn uses_std_handles(startup_flags: u32) -> (r: bool)
    ensures
        r == ((startup_flags & STARTF_USESTDHANDLES) != 0),
        r == ((startup_flags / 256) % 2 == 1),
{
    let r = (startup_flags & STARTF_USESTDHANDLES) != 0;
    assert(((startup_flags & 0x100u32) != 0) == ((startup_flags / 256) % 2 == 1)) by (bit_vector);
    r
}

} // verus!
