use moss::parallel::{parallel_command_outcome, ParallelTally};
use moss::RunError;

#[test]
fn tally_all_succeed() {
    let mut t = ParallelTally::new(2);
    assert!(!t.record(true));
    assert!(!t.record(true));
    assert!(t.finish("ping").is_ok());
}

#[test]
fn tally_counts_failures() {
    let mut t = ParallelTally::new(3);
    assert!(t.record(false));
    assert!(!t.record(true));
    assert!(t.record(false));
    match t.finish("race") {
        Err(RunError::ParallelFailure { task, count }) => {
            assert_eq!(task, "race");
            assert_eq!(count, 2);
        }
        other => panic!("expected a parallel failure, got {:?}", other),
    }
}

#[test]
fn tally_empty_group_succeeds() {
    assert!(ParallelTally::new(0).finish("none").is_ok());
}

#[test]
fn parallel_outcome_uses_exit_code() {
    assert!(parallel_command_outcome("t", "c", true, Some(0), true).is_ok());
    assert!(matches!(
        parallel_command_outcome("t", "c", false, Some(3), true),
        Err(RunError::CommandFailed { code: 3, .. })
    ));
    assert!(matches!(
        parallel_command_outcome("t", "c", false, None, true),
        Err(RunError::CommandKilled { .. })
    ));
    assert!(matches!(
        parallel_command_outcome("t", "c", false, None, false),
        Err(RunError::CommandFailed { code: -1, .. })
    ));
}
