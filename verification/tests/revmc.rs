use reth_accel::revmc::FrameEvent;
use reth_accel::revmc::FrameStep;
use reth_accel::revmc::Inspection;
use reth_accel::revmc::TransactionRoute;
use reth_accel::revmc::frame_run;
use reth_accel::revmc::recorded_code;
use reth_accel::revmc::transaction_result;

fn run(compiled: bool, outcome: FrameEvent) -> Vec<FrameStep> {
    let mut steps = vec![FrameStep::LookUp];
    while *steps.last().unwrap() != FrameStep::Done {
        let event = match steps.last().unwrap() {
            FrameStep::LookUp if compiled => FrameEvent::Found,
            FrameStep::LookUp => FrameEvent::NotFound,
            FrameStep::ProcessAction => outcome,
            _ => FrameEvent::Done,
        };
        steps.push(frame_run(*steps.last().unwrap(), event));
    }
    steps
}

#[test]
fn compiled_code_runs_where_there_is_some() {
    assert_eq!(
        run(true, FrameEvent::Result),
        vec![
            FrameStep::LookUp,
            FrameStep::RunCompiled,
            FrameStep::RecordCompiled,
            FrameStep::ProcessAction,
            FrameStep::MarkFinished,
            FrameStep::Done,
        ]
    );
    assert_eq!(
        run(false, FrameEvent::NewFrame),
        vec![
            FrameStep::LookUp,
            FrameStep::Interpret,
            FrameStep::RecordInterpreted,
            FrameStep::ProcessAction,
            FrameStep::Done,
        ]
    );
    assert_eq!(run(true, FrameEvent::Failed).len(), 5);
}

#[test]
fn code_is_recorded_only_to_be_compiled() {
    assert_eq!(recorded_code(FrameStep::RecordInterpreted, &[0x60, 1]), &[0x60, 1]);
    assert!(recorded_code(FrameStep::RecordCompiled, &[0x60, 1]).is_empty());
}

#[test]
fn inspection_decides_the_route() {
    let mut inspection = Inspection::without_inspector();
    assert_eq!(inspection.route(), TransactionRoute::Compiled);
    inspection.set_inspector_enabled(true);
    assert_eq!(inspection.route(), TransactionRoute::Inspected);
    let mut inspection = Inspection::with_inspector();
    assert_eq!(inspection.route(), TransactionRoute::Inspected);
    inspection.set_inspector_enabled(false);
    assert_eq!(inspection.route(), TransactionRoute::Compiled);
}

#[test]
fn state_goes_with_the_output() {
    assert_eq!(transaction_result::<u8, u8, u8>(Ok(1), 2), Ok((1, 2)));
    assert_eq!(transaction_result::<u8, u8, u8>(Err(3), 2), Err(3));
}
