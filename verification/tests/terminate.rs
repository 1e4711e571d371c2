use portkill::terminate::killed_confirmation;
use portkill::terminate::plan_terminate;
use portkill::terminate::TerminateAction;

#[test]
fn test_kill_pids_with_empty_vector() {
    let result = plan_terminate(&vec![]);
    match result {
        TerminateAction::Done(msg) => assert_eq!(msg, "No processes to kill"),
        TerminateAction::Invoke(_) => panic!("an empty list must not invoke the kill command"),
    }
}

#[test]
fn test_plan_terminate_nonempty_invokes_with_same_pids() {
    let pids = vec!["1234".to_string(), "5678".to_string()];
    let result = plan_terminate(&pids);
    match result {
        TerminateAction::Done(_) => panic!("a non-empty list must invoke the kill command"),
        TerminateAction::Invoke(args) => {
            assert_eq!(args, vec!["1234".to_string(), "5678".to_string()])
        }
    }
}

#[test]
fn test_killed_confirmation_joins_pids() {
    let pids = vec!["1234".to_string(), "5678".to_string()];
    let msg = killed_confirmation(&pids);
    assert_eq!(msg, "Killed 1234, 5678");
    assert!(msg.contains("1234, 5678"));
}

#[test]
fn test_killed_confirmation_single_pid() {
    let pids = vec!["42".to_string()];
    let msg = killed_confirmation(&pids);
    assert_eq!(msg, "Killed 42");
}

#[test]
fn test_killed_confirmation_preserves_order() {
    let pids = vec!["9".to_string(), "3".to_string(), "7".to_string()];
    let msg = killed_confirmation(&pids);
    assert_eq!(msg, "Killed 9, 3, 7");
}
