use rerun::runner::{
    after_interrupt, program_and_args, wait_step, ChildStatus, CommandError, StopStep, WaitStep,
    INTERRUPT_GRACE_MS, WAIT_POLL_MS,
};

#[test]
fn spawn_empty_command_errors() {
    assert_eq!(program_and_args(&[]), Err(CommandError::Empty));
}

#[test]
fn command_splits_into_program_and_args() {
    let cmd = vec!["sleep".to_string(), "60".to_string()];
    assert_eq!(
        program_and_args(&cmd),
        Ok(("sleep".to_string(), vec!["60".to_string()]))
    );
    let cmd = vec!["true".to_string()];
    assert_eq!(program_and_args(&cmd), Ok(("true".to_string(), vec![])));
}

#[test]
fn bounded_wait_rounds() {
    assert_eq!(wait_step(ChildStatus::Exited, 0, 200), WaitStep::Exited);
    assert_eq!(wait_step(ChildStatus::Failed, 500, 200), WaitStep::Failed);
    assert_eq!(wait_step(ChildStatus::Running, 199, 200), WaitStep::Sleep);
    assert_eq!(wait_step(ChildStatus::Running, 200, 200), WaitStep::TimedOut);
    assert_eq!(INTERRUPT_GRACE_MS, 200);
    assert_eq!(WAIT_POLL_MS, 10);
}

#[test]
fn interrupt_then_kill() {
    assert_eq!(after_interrupt(WaitStep::Exited), StopStep::Interrupted);
    assert_eq!(after_interrupt(WaitStep::Failed), StopStep::Interrupted);
    assert_eq!(after_interrupt(WaitStep::TimedOut), StopStep::Kill);
}
