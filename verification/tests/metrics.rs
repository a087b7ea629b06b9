use solstice::debugger::metrics::{Action, MetricsRecorder};
use std::time::Duration;

#[test]
fn captures_are_recorded_in_order() {
    let mut recorder = MetricsRecorder::new();
    assert!(recorder.metrics.is_empty());
    recorder.capture(Action::GenerateDebugUnits);
    recorder.capture(Action::PrepareDebugUnits);
    recorder.capture(Action::GenerateSteps);
    let actions: Vec<Action> = recorder.metrics.iter().map(|(a, _)| *a).collect();
    assert_eq!(
        actions,
        vec![
            Action::GenerateDebugUnits,
            Action::PrepareDebugUnits,
            Action::GenerateSteps
        ]
    );
}

#[test]
fn test_basic_recording() {
    let mut recorder = MetricsRecorder::new();
    let start = recorder.last_capture;

    let first = start + Duration::from_millis(10);
    recorder.capture_at(Action::GenerateDebugUnits, first);
    assert_eq!(recorder.last_capture, first);

    let second = first + Duration::from_millis(20);
    recorder.capture_at(Action::PrepareDebugUnits, second);

    let metrics = recorder.metrics;
    assert_eq!(metrics.len(), 2);
    assert_eq!(metrics[0].0, Action::GenerateDebugUnits);
    assert_eq!(metrics[1].0, Action::PrepareDebugUnits);

    assert!(metrics[0].1 >= Duration::from_millis(8));
    assert!(metrics[1].1 >= Duration::from_millis(18));
    assert_eq!(metrics[0].1, Duration::from_millis(10));
    assert_eq!(metrics[1].1, Duration::from_millis(20));
}

#[test]
fn a_capture_measures_from_the_previous_one() {
    let mut recorder = MetricsRecorder::new();
    recorder.capture(Action::GenerateSteps);
    let after = recorder.last_capture + Duration::from_millis(5);
    recorder.capture_at(Action::GenerateVariableDefinitions, after);
    assert_eq!(recorder.metrics[1].1, Duration::from_millis(5));
}
