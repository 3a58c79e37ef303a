use tush::process::{Process, ProcessChild, ProcessFault, ProcessHandle, ProcessPool, ProcessState};

fn words(words: &[&str]) -> Vec<String> {
    words.iter().map(|word| word.to_string()).collect()
}

#[test]
fn a_run_is_over_once_it_ended() {
    for (state, over) in [
        (ProcessState::Stopped, false),
        (ProcessState::Started, false),
        (ProcessState::Running, false),
        (ProcessState::ExitSuccess, true),
        (ProcessState::ExitError, true),
        (ProcessState::Killing, false),
        (ProcessState::Killed, true),
    ] {
        assert_eq!(state.is_finished(), over, "{state:?}");
    }
}

#[test]
fn a_child_is_spawned_once() {
    let mut child = ProcessChild::new();
    assert_eq!(child.wait(), Err(ProcessFault::NotRunning));
    assert!(!child.kill());
    assert_eq!(child.start(), Ok(true));
    assert_eq!(child, ProcessChild::Running);
    assert_eq!(child.wait(), Ok(()));
    assert!(child.kill());
    assert_eq!(child.start(), Ok(false), "it is up already");
    assert_eq!(child, ProcessChild::Empty, "and it is let go of");
    assert_eq!(ProcessChild::Empty.start(), Err(ProcessFault::Empty));
}

#[test]
fn a_run_goes_from_its_start_to_its_end() {
    let mut run = ProcessHandle::new();
    assert_eq!(run.state(), ProcessState::Started);
    run.spawned();
    assert_eq!(run.state(), ProcessState::Running);
    run.exited(None);
    assert_eq!(run.state(), ProcessState::ExitError);
    run.exited(Some(ProcessState::ExitSuccess));
    assert_eq!(run.state(), ProcessState::ExitSuccess);

    let mut run = ProcessHandle::new();
    assert!(run.abort());
    assert!(!run.abort(), "it was told already");
    run.aborted();
    assert_eq!(run.state(), ProcessState::Killing);
    run.shut_down(None);
    assert_eq!(run.state(), ProcessState::Killed);
}

#[test]
fn a_process_is_started_unless_it_runs() {
    let mut process = Process::new(16, words(&["printf", "oi"]));
    assert_eq!(process.state(), ProcessState::Stopped);
    assert_eq!(process.start(), Ok(true));
    assert_eq!(process.start(), Ok(false));
    let mut run = ProcessHandle::new();
    run.exited(Some(ProcessState::ExitSuccess));
    process.noted(run);
    assert_eq!(process.state(), ProcessState::ExitSuccess);
    assert_eq!(process.start(), Ok(true));
    assert_eq!(process.state(), ProcessState::Started);
    assert_eq!(process.stop(), Some(ProcessHandle::new()));
    assert_eq!(process.state(), ProcessState::Stopped);
    assert_eq!(process.stop(), None);
    assert_eq!(process.log().new_buffer().len(), 0);
}

#[test]
fn a_process_with_no_command_never_starts() {
    let mut process = Process::new(16, vec![]);
    assert_eq!(process.start(), Err(ProcessFault::NoCommands));
    assert_eq!(process.restart(), Err(ProcessFault::NoCommands));
    assert_eq!(process.state(), ProcessState::Stopped);
}

#[test]
fn a_pool_keeps_processes_by_name() {
    let mut pool = ProcessPool::new(16);
    pool.add("web".to_string(), words(&["npm", "start"]));
    pool.add("db".to_string(), words(&[]));
    assert_eq!(pool.state("web"), Some(ProcessState::Stopped));
    assert_eq!(pool.state("api"), None);
    assert_eq!(pool.start("web"), Ok(true));
    assert_eq!(pool.start("web"), Ok(false));
    assert_eq!(pool.restart("web"), Ok(()));
    assert_eq!(pool.state("web"), Some(ProcessState::Started));
    assert_eq!(pool.start("db"), Err(ProcessFault::NoCommands));
    assert_eq!(
        pool.start("api"),
        Err(ProcessFault::Invalid("api".to_string()))
    );
    assert_eq!(pool.stop("web"), Ok(Some(ProcessHandle::new())));
    assert_eq!(pool.state("web"), Some(ProcessState::Stopped));
    assert!(pool.stop("api").is_err());
    assert!(pool.restart("api").is_err());

    // Putting one under a name that is taken replaces what was there.
    assert_eq!(pool.start("web"), Ok(true));
    pool.add("web".to_string(), words(&["node"]));
    assert_eq!(pool.state("web"), Some(ProcessState::Stopped));
}

#[test]
fn each_fault_says_what_it_is() {
    assert_eq!(ProcessFault::Empty.message(), "Empty");
    assert_eq!(ProcessFault::NotRunning.message(), "Child is not running");
    assert_eq!(ProcessFault::NoCommands.message(), "No commands");
    assert_eq!(
        ProcessFault::Invalid("api".to_string()).message(),
        "Invalid process api"
    );
}
