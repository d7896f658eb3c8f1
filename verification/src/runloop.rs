//! What the run loop does when a slice of guest execution ends.

use vstd::prelude::*;

verus! {

/// How a slice of guest execution ended, as far as the run loop decides on it.
#[derive(Debug, Clone, Copy, PartialEq, Eq, Structural)]
pub enum ExitEvent {
    /// The slice ran its instructions.
    Completed,
    /// The guest executed `HLT`; `interrupts_enabled` is `RFLAGS.IF`.
    Halted { interrupts_enabled: bool },
    /// The guest asked for a reset; `booting_from_cd` tells whether the active boot device is
    /// the CD-ROM.
    ResetRequested { booting_from_cd: bool },
    /// The CPU needs an assist the emulator does not give.
    Assist,
    /// An exception the emulator does not deliver.
    Exception,
    /// Another CPU exit.
    CpuExit,
}

/// What the run loop remembers between exits.
#[derive(Debug, Clone, Copy, PartialEq, Eq, Structural)]
pub struct ExitState {
    /// The "CD first when present" boot policy is still on.
    pub cd_first_enabled: bool,
    /// An interruptible `HLT` was already reported.
    pub logged_interruptible_halt: bool,
}

/// What the run loop does next.
#[derive(Debug, Clone, Copy, PartialEq, Eq, Structural)]
pub enum ExitStep {
    /// Run the next slice.
    Continue,
    /// Report the first interruptible `HLT` (timers may wake the guest), then run on.
    NoteIdleHalt,
    /// Report a `HLT` with interrupts masked and stop.
    StopHalted,
    /// Report the reset request, do not reset, and run on.
    IgnoreReset,
    /// Turn the CD-first policy off, boot the hard disk (`DL=0x80`) from now on, reset, and
    /// run on.
    ResetToHdd,
    /// Reset and run on.
    Reset,
    /// Stop with an error carrying the exception context.
    Fail,
}

/// The step for `exit` in state `st`, with resets ignored or not, and the state after.
pub open spec fn exit_step(st: ExitState, exit: ExitEvent, ignore_reset: bool) -> (ExitStep, ExitState) {
    match exit {
        ExitEvent::Completed => (ExitStep::Continue, st),
        ExitEvent::Halted { interrupts_enabled } => if !interrupts_enabled {
            (ExitStep::StopHalted, st)
        } else if st.logged_interruptible_halt {
            (ExitStep::Continue, st)
        } else {
            (ExitStep::NoteIdleHalt, ExitState { logged_interruptible_halt: true, ..st })
        },
        ExitEvent::ResetRequested { booting_from_cd } => if ignore_reset {
            (ExitStep::IgnoreReset, st)
        } else if st.cd_first_enabled && booting_from_cd {
            (ExitStep::ResetToHdd, ExitState { cd_first_enabled: false, ..st })
        } else {
            (ExitStep::Reset, st)
        },
        ExitEvent::Assist | ExitEvent::Exception | ExitEvent::CpuExit => (ExitStep::Fail, st),
    }
}

/// Decide what to do about a slice that ended with `exit`.
pub fn handle_exit(st: &mut ExitState, exit: ExitEvent, ignore_reset: bool) -> (r: ExitStep)
    ensures
        (r, *final(st)) == exit_step(*old(st), exit, ignore_reset),
{
    match exit {
        ExitEvent::Completed => ExitStep::Continue,
        ExitEvent::Halted { interrupts_enabled } => {
            if !interrupts_enabled {
                ExitStep::StopHalted
            } else if st.logged_interruptible_halt {
                ExitStep::Continue
            } else {
                st.logged_interruptible_halt = true;
                ExitStep::NoteIdleHalt
            }
        },
        ExitEvent::ResetRequested { booting_from_cd } => {
            if ignore_reset {
                ExitStep::IgnoreReset
            } else if st.cd_first_enabled && booting_from_cd {
                st.cd_first_enabled = false;
                ExitStep::ResetToHdd
            } else {
                ExitStep::Reset
            }
        },
        ExitEvent::Assist | ExitEvent::Exception | ExitEvent::CpuExit => ExitStep::Fail,
    }
}

/// Whether an `AERO_IGNORE_RESET` value turns resets off: `1`, `true`, `on` or `yes`.
pub open spec fn ignores_reset(value: Option<Seq<char>>) -> bool {
    match value {
        Some(v) => v == seq!['1'] || v == seq!['t', 'r', 'u', 'e'] || v == seq!['o', 'n'] || v == seq![
            'y',
            'e',
            's',
        ],
        None => false,
    }
}

fn chars_are(v: &[char], want: &[char]) -> (r: bool)
    ensures
        r == (v@ == want@),
{
    if v.len() != want.len() {
        return false;
    }
    let mut i: usize = 0;
    while i < v.len()
        invariant
            i <= v@.len(),
            v@.len() == want@.len(),
            forall|j: int| 0 <= j < i ==> v@[j] == want@[j],
        decreases v@.len() - i,
    {
        if v[i] != want[i] {
            return false;
        }
        i += 1;
    }
    assert(v@ =~= want@);
    true
}

/// Whether the `AERO_IGNORE_RESET` value `value` (absent: `None`) turns resets off.
pub fn reset_ignored(value: Option<&str>) -> (r: bool)
    ensures
        r == ignores_reset(
            match value {
                Some(s) => Some(s@),
                None => None,
            },
        ),
{
    match value {
        None => false,
        Some(s) => {
            let v = crate::text::chars_of(s);
            let one: [char; 1] = ['1'];
            let tru: [char; 4] = ['t', 'r', 'u', 'e'];
            let on: [char; 2] = ['o', 'n'];
            let yes: [char; 3] = ['y', 'e', 's'];
            assert(one@ =~= seq!['1']);
            assert(tru@ =~= seq!['t', 'r', 'u', 'e']);
            assert(on@ =~= seq!['o', 'n']);
            assert(yes@ =~= seq!['y', 'e', 's']);
            chars_are(v.as_slice(), one.as_slice()) || chars_are(v.as_slice(), tru.as_slice()) || chars_are(
                v.as_slice(),
                on.as_slice(),
            ) || chars_are(v.as_slice(), yes.as_slice())
        },
    }
}

/// Slices of interruptible idle (about 1 ms of platform time each) after which a run stops.
pub const MAX_IDLE_HALT_SLICES: u64 = 120_000;

/// The idle count after a slice, and whether the run stops: a slice that halted without
/// executing anything counts (saturating) and stops the run at the limit; any other slice
/// clears the count.
pub fn idle_step(idle: u64, halted: bool, slice_executed: u64) -> (r: (u64, bool))
    ensures
        r == (if halted && slice_executed == 0 {
            let n = if idle == u64::MAX {
                idle
            } else {
                (idle + 1) as u64
            };
            (n, n >= MAX_IDLE_HALT_SLICES)
        } else {
            (0u64, false)
        }),
{
    if halted && slice_executed == 0 {
        let n = idle.saturating_add(1);
        (n, n >= MAX_IDLE_HALT_SLICES)
    } else {
        (0, false)
    }
}

/// Once a reset from the CD-ROM has switched to the hard disk, no later exit switches again:
/// the policy stays off whatever the guest does.
pub proof fn lemma_hdd_switch_happens_once(st: ExitState, exit: ExitEvent, ignore_reset: bool)
    requires
        !st.cd_first_enabled,
    ensures
        exit_step(st, exit, ignore_reset).0 != ExitStep::ResetToHdd,
        !exit_step(st, exit, ignore_reset).1.cd_first_enabled,
{
}

/// Once an interruptible `HLT` was reported, no later exit reports one again.
pub proof fn lemma_idle_halt_noted_once(st: ExitState, exit: ExitEvent, ignore_reset: bool)
    requires
        st.logged_interruptible_halt,
    ensures
        exit_step(st, exit, ignore_reset).0 != ExitStep::NoteIdleHalt,
        exit_step(st, exit, ignore_reset).1.logged_interruptible_halt,
{
}

/// Only a halt with interrupts masked or a fault ends the run.
pub proof fn lemma_only_masked_halts_and_faults_stop(st: ExitState, exit: ExitEvent, ignore_reset: bool)
    ensures
        exit_step(st, exit, ignore_reset).0 == ExitStep::StopHalted <==> exit == (ExitEvent::Halted {
            interrupts_enabled: false,
        }),
        exit_step(st, exit, ignore_reset).0 == ExitStep::Fail <==> (exit is Assist || exit is Exception
            || exit is CpuExit),
{
}

} // verus!
