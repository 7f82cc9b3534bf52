use microbit_telemetry::parser::Sample;
use microbit_telemetry::sink::{AxisId, ButtonId, DeviceSink, SinkCommand, dispatch_sample};

#[test]
fn fresh_sink_is_zeroed_with_empty_history() {
    let d = DeviceSink::new();
    assert_eq!(d.axis_x, 0);
    assert_eq!(d.axis_y, 0);
    assert_eq!(d.button_a, 0);
    assert_eq!(d.button_b, 0);
    assert!(d.log.is_empty());
}

#[test]
fn single_writes_update_one_slot_and_log() {
    let mut d = DeviceSink::new();
    d.set_axis(AxisId::Y, -3);
    d.set_button(ButtonId::B, 1);
    d.sync();
    assert_eq!(d.axis_y, -3);
    assert_eq!(d.axis_x, 0);
    assert_eq!(d.button_b, 1);
    assert_eq!(
        d.log,
        vec![
            SinkCommand::SetAxis(AxisId::Y, -3),
            SinkCommand::SetButton(ButtonId::B, 1),
            SinkCommand::Sync,
        ]
    );
}

#[test]
fn dispatch_issues_exactly_one_sync_per_sample() {
    let mut d = DeviceSink::new();
    let s = Sample { x: 1, y: 2, z: 3, a: 1, b: 0 };
    dispatch_sample(&mut d, &s);
    dispatch_sample(&mut d, &s);
    let syncs = d.log.iter().filter(|c| matches!(c, SinkCommand::Sync)).count();
    assert_eq!(syncs, 2);
    assert_eq!(d.log.len(), 10);
    // No command carries the diagnostic Z value.
    assert!(!d.log.contains(&SinkCommand::SetAxis(AxisId::X, 3)));
    assert!(!d.log.contains(&SinkCommand::SetAxis(AxisId::Y, 3)));
}
