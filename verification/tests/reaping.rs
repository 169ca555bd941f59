use job_distributor::workers::{reap, ReapAction, WaitOutcome};

#[test]
fn an_exit_is_reported() {
    assert_eq!(
        reap(WaitOutcome::Exited { pid: 4242, status: 0 }),
        ReapAction::Report { pid: 4242, status: 0 }
    );
    assert_eq!(
        reap(WaitOutcome::Exited { pid: 7, status: 101 }),
        ReapAction::Report { pid: 7, status: 101 }
    );
}

#[test]
fn an_end_by_a_signal_is_reported() {
    assert_eq!(
        reap(WaitOutcome::Signaled { pid: 4243, signal: 9 }),
        ReapAction::ReportSignal { pid: 4243, signal: 9 }
    );
    assert_eq!(
        reap(WaitOutcome::Signaled { pid: 8, signal: 15 }),
        ReapAction::ReportSignal { pid: 8, signal: 15 }
    );
}

#[test]
fn a_stop_or_a_continue_is_passed_over() {
    assert_eq!(reap(WaitOutcome::Changed), ReapAction::Again);
}

#[test]
fn the_absence_of_children_ends_the_loop() {
    assert_eq!(reap(WaitOutcome::NoChildren), ReapAction::Done);
}

#[test]
fn any_other_failure_is_fatal() {
    assert_eq!(reap(WaitOutcome::Failed { errno: 4 }), ReapAction::Fatal { errno: 4 });
}

#[test]
fn a_clean_shutdown_reports_each_worker_and_stops() {
    let outcomes = [
        WaitOutcome::Exited { pid: 12, status: 0 },
        WaitOutcome::Changed,
        WaitOutcome::Exited { pid: 11, status: 0 },
        WaitOutcome::NoChildren,
        WaitOutcome::Exited { pid: 99, status: 1 },
    ];
    let mut reported = Vec::new();
    for outcome in outcomes {
        match reap(outcome) {
            ReapAction::Report { pid, status } => reported.push((pid, status)),
            ReapAction::ReportSignal { pid, signal } => panic!("{} got signal {}", pid, signal),
            ReapAction::Again => {}
            ReapAction::Done => break,
            ReapAction::Fatal { errno } => panic!("wait failed with {}", errno),
        }
    }
    assert_eq!(reported, vec![(12, 0), (11, 0)]);
}

#[test]
fn every_ended_worker_is_reported_however_it_ended() {
    let outcomes = [
        WaitOutcome::Exited { pid: 21, status: 0 },
        WaitOutcome::Signaled { pid: 22, signal: 11 },
        WaitOutcome::Changed,
        WaitOutcome::Exited { pid: 23, status: 3 },
        WaitOutcome::NoChildren,
    ];
    let mut ended = Vec::new();
    let mut done = false;
    for outcome in outcomes {
        match reap(outcome) {
            ReapAction::Report { pid, .. } | ReapAction::ReportSignal { pid, .. } => ended.push(pid),
            ReapAction::Again => {}
            ReapAction::Done => done = true,
            ReapAction::Fatal { errno } => panic!("wait failed with {}", errno),
        }
    }
    assert_eq!(ended, vec![21, 22, 23]);
    assert!(done);
}
