use aero::runloop::{handle_exit, idle_step, reset_ignored, ExitEvent, ExitState, ExitStep, MAX_IDLE_HALT_SLICES};

fn fresh() -> ExitState {
    ExitState { cd_first_enabled: true, logged_interruptible_halt: false }
}

#[test]
fn an_interruptible_halt_is_noted_once_and_the_run_goes_on() {
    let mut st = fresh();
    let halt = ExitEvent::Halted { interrupts_enabled: true };
    assert_eq!(handle_exit(&mut st, halt, false), ExitStep::NoteIdleHalt);
    assert!(st.logged_interruptible_halt);
    assert_eq!(handle_exit(&mut st, halt, false), ExitStep::Continue);
    assert_eq!(handle_exit(&mut st, ExitEvent::Completed, false), ExitStep::Continue);
}

#[test]
fn a_halt_with_interrupts_masked_stops_the_run() {
    let mut st = fresh();
    assert_eq!(handle_exit(&mut st, ExitEvent::Halted { interrupts_enabled: false }, false), ExitStep::StopHalted);
    assert_eq!(st, fresh());
}

#[test]
fn the_first_reset_from_cd_switches_to_the_hard_disk() {
    let mut st = fresh();
    let from_cd = ExitEvent::ResetRequested { booting_from_cd: true };
    assert_eq!(handle_exit(&mut st, from_cd, false), ExitStep::ResetToHdd);
    assert!(!st.cd_first_enabled);
    assert_eq!(handle_exit(&mut st, from_cd, false), ExitStep::Reset);
    let mut hdd = fresh();
    assert_eq!(handle_exit(&mut hdd, ExitEvent::ResetRequested { booting_from_cd: false }, false), ExitStep::Reset);
    assert!(hdd.cd_first_enabled);
    // Ignored resets change nothing.
    let mut ign = fresh();
    assert_eq!(handle_exit(&mut ign, from_cd, true), ExitStep::IgnoreReset);
    assert_eq!(ign, fresh());
}

#[test]
fn faults_stop_the_run_with_an_error() {
    for e in [ExitEvent::Assist, ExitEvent::Exception, ExitEvent::CpuExit] {
        let mut st = fresh();
        assert_eq!(handle_exit(&mut st, e, false), ExitStep::Fail);
    }
}

#[test]
fn reset_ignoring_values() {
    for v in ["1", "true", "on", "yes"] {
        assert!(reset_ignored(Some(v)));
    }
    for v in ["0", "TRUE", " yes", ""] {
        assert!(!reset_ignored(Some(v)));
    }
    assert!(!reset_ignored(None));
}

#[test]
fn prolonged_idle_stops_the_run() {
    assert_eq!(idle_step(5, true, 0), (6, false));
    assert_eq!(idle_step(MAX_IDLE_HALT_SLICES - 1, true, 0), (MAX_IDLE_HALT_SLICES, true));
    assert_eq!(idle_step(u64::MAX, true, 0), (u64::MAX, true));
    assert_eq!(idle_step(5, true, 3), (0, false));
    assert_eq!(idle_step(5, false, 0), (0, false));
}
