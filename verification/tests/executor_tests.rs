use keylight::address::Ipv4Address;
use keylight::error::DeviceError;
use keylight::executor::{Action, Executor, Mode, Outcome, Reply};
use keylight::light::{Light, Operation};
use keylight::report::{attribute, Report};
use keylight::target::Target;

fn target(name: &str, last: u8) -> Target {
    Target { name: name.to_string(), address: Ipv4Address(192, 168, 0, last), port: 9123 }
}

fn light(on: u8, brightness: u8, temperature: u16) -> Light {
    Light { on, brightness, temperature }
}

fn outcomes(executor: &Executor) -> Vec<Outcome> {
    executor.entries().iter().map(|entry| entry.outcome).collect()
}

/// A light that answers as a device would, unless it is out of order.
struct Device {
    state: Light,
    broken: bool,
    calls: Vec<Action>,
}

fn device(state: Light) -> Device {
    Device { state, broken: false, calls: Vec::new() }
}

fn broken() -> Device {
    Device { state: light(0, 0, 143), broken: true, calls: Vec::new() }
}

fn run(operation: Operation, names: &[&str], devices: &mut Vec<Device>) -> Report {
    let mut targets = Vec::new();
    for (i, name) in names.iter().enumerate() {
        targets.push(target(name, i as u8 + 1));
    }
    let mut executor = Executor::new(operation, targets);
    let mut rounds = 0;
    while let Some(command) = executor.next() {
        assert_eq!(command.target.name, names[command.index]);
        let device = &mut devices[command.index];
        device.calls.push(command.action);
        let reply = if device.broken {
            Reply::Failed(DeviceError::Unreachable)
        } else {
            match command.action {
                Action::Read => Reply::Status(vec![device.state]),
                Action::Write(wanted) => {
                    device.state = wanted;
                    Reply::Written
                },
            }
        };
        executor.handle(reply);
        rounds += 1;
        assert!(rounds <= 2 * names.len());
    }
    assert!(executor.is_finished());
    executor.report()
}

#[test]
fn a_failing_target_does_not_stop_the_others() {
    let mut devices = vec![device(light(1, 50, 200)), broken(), device(light(0, 95, 200))];
    let report = run(Operation::Brightness { delta: 20 }, &["Left", "Middle", "Right"], &mut devices);
    assert_eq!(report.mode, Mode::Multi);
    assert_eq!(report.entries.len(), 3);
    assert_eq!(report.failures(), 1);
    assert!(!report.succeeded());
    assert_eq!(report.entries[0].name, "Left");
    assert_eq!(report.entries[0].outcome, Outcome::Applied(light(1, 70, 200)));
    assert_eq!(report.entries[1].name, "Middle");
    assert_eq!(report.entries[1].outcome, Outcome::Failed(DeviceError::Unreachable));
    assert_eq!(report.entries[2].name, "Right");
    assert_eq!(report.entries[2].outcome, Outcome::Applied(light(1, 100, 200)));
    assert_eq!(devices[2].calls, vec![Action::Read, Action::Write(light(1, 100, 200))]);
    assert_eq!(devices[1].calls, vec![Action::Read]);
    assert_eq!(devices[2].state, light(1, 100, 200));
}

#[test]
fn every_target_failing_is_reported_target_by_target() {
    let mut devices = vec![broken(), broken()];
    let report = run(Operation::Off, &["Left", "Right"], &mut devices);
    assert_eq!(report.failures(), 2);
    assert_eq!(report.entries[0].outcome, Outcome::Failed(DeviceError::Unreachable));
    assert_eq!(report.entries[1].outcome, Outcome::Failed(DeviceError::Unreachable));
}

#[test]
fn relative_brightness_reads_then_writes() {
    let mut devices = vec![device(light(0, 95, 200))];
    let report = run(Operation::Brightness { delta: 20 }, &["Desk"], &mut devices);
    assert_eq!(report.mode, Mode::Single);
    assert_eq!(report.failures(), 0);
    assert!(report.succeeded());
    assert_eq!(report.entries[0].outcome, Outcome::Applied(light(1, 100, 200)));
    assert_eq!(devices[0].calls, vec![Action::Read, Action::Write(light(1, 100, 200))]);
}

#[test]
fn switching_on_writes_without_reading() {
    let mut devices = vec![device(light(0, 5, 200)), device(light(1, 80, 300))];
    let report = run(Operation::On { brightness: 10, temperature: 290 }, &["A", "B"], &mut devices);
    assert_eq!(report.failures(), 0);
    for d in &devices {
        assert_eq!(d.calls, vec![Action::Write(light(1, 10, 290))]);
        assert_eq!(d.state, light(1, 10, 290));
    }
}

#[test]
fn switching_off_keeps_brightness_and_temperature() {
    let mut devices = vec![device(light(1, 80, 300))];
    let report = run(Operation::Off, &["Desk"], &mut devices);
    assert_eq!(report.entries[0].outcome, Outcome::Applied(light(0, 80, 300)));
    assert_eq!(devices[0].calls, vec![Action::Read, Action::Write(light(0, 80, 300))]);
}

#[test]
fn setting_the_temperature_switches_on() {
    let mut devices = vec![device(light(0, 80, 300))];
    let report = run(Operation::Temperature { temperature: 250 }, &["Desk"], &mut devices);
    assert_eq!(report.entries[0].outcome, Outcome::Applied(light(1, 80, 250)));
}

#[test]
fn a_status_query_only_reads() {
    let mut devices = vec![device(light(0, 80, 300)), device(light(1, 20, 150))];
    let report = run(Operation::Status, &["A", "B"], &mut devices);
    assert_eq!(report.entries[0].outcome, Outcome::Reported(light(0, 80, 300)));
    assert_eq!(report.entries[1].outcome, Outcome::Reported(light(1, 20, 150)));
    assert_eq!(devices[0].calls, vec![Action::Read]);
    assert_eq!(devices[0].state, light(0, 80, 300));
}

#[test]
fn a_document_without_lights_fails_the_target() {
    let mut executor = Executor::new(Operation::Brightness { delta: 1 }, vec![target("A", 1), target("B", 2)]);
    executor.handle(Reply::Status(vec![]));
    assert_eq!(outcomes(&executor), vec![Outcome::Failed(DeviceError::EmptyResponse)]);
    assert_eq!(executor.entries()[0].name, "A");
    let next = executor.next().unwrap();
    assert_eq!((next.index, next.action), (1, Action::Read));
    assert_eq!(next.target, target("B", 2));
}

#[test]
fn a_failed_write_fails_the_target() {
    let mut executor = Executor::new(Operation::Off, vec![target("A", 1), target("B", 2)]);
    executor.handle(Reply::Status(vec![light(1, 2, 200)]));
    assert_eq!(executor.next().unwrap().action, Action::Write(light(0, 2, 200)));
    assert_eq!(executor.next().unwrap().index, 0);
    executor.handle(Reply::Failed(DeviceError::MalformedResponse));
    assert_eq!(outcomes(&executor), vec![Outcome::Failed(DeviceError::MalformedResponse)]);
    assert_eq!(executor.next().unwrap().index, 1);
    assert_eq!(executor.next().unwrap().action, Action::Read);
}

#[test]
fn a_reply_of_the_wrong_kind_fails_the_target() {
    let mut executor = Executor::new(Operation::Off, vec![target("A", 1), target("B", 2)]);
    executor.handle(Reply::Written);
    executor.handle(Reply::Status(vec![light(1, 2, 200)]));
    executor.handle(Reply::Status(vec![light(1, 2, 200)]));
    assert_eq!(
        outcomes(&executor),
        vec![
            Outcome::Failed(DeviceError::MalformedResponse),
            Outcome::Failed(DeviceError::MalformedResponse)
        ]
    );
    let mut on = Executor::new(Operation::On { brightness: 1, temperature: 200 }, vec![target("A", 1)]);
    on.handle(Reply::Status(vec![light(1, 2, 200)]));
    assert_eq!(outcomes(&on), vec![Outcome::Failed(DeviceError::MalformedResponse)]);
}

#[test]
fn replies_after_the_end_change_nothing() {
    let mut executor = Executor::new(Operation::Status, vec![target("A", 1)]);
    executor.handle(Reply::Status(vec![light(1, 2, 200)]));
    assert!(executor.is_finished());
    assert!(executor.next().is_none());
    executor.handle(Reply::Failed(DeviceError::Unreachable));
    executor.handle(Reply::Written);
    assert_eq!(outcomes(&executor), vec![Outcome::Reported(light(1, 2, 200))]);
    assert_eq!(executor.report().failures(), 0);
}

#[test]
fn no_targets_is_finished_at_once() {
    let mut executor = Executor::new(Operation::Off, Vec::new());
    assert!(executor.is_finished());
    assert!(executor.next().is_none());
    assert_eq!(executor.mode(), Mode::Multi);
    executor.handle(Reply::Written);
    let report = executor.report();
    assert_eq!(report.entries.len(), 0);
    assert_eq!(report.failures(), 0);
    assert!(report.succeeded());
}

#[test]
fn the_mode_follows_the_number_of_targets() {
    assert_eq!(Executor::new(Operation::Off, vec![target("A", 1)]).mode(), Mode::Single);
    assert_eq!(Executor::new(Operation::Off, vec![target("A", 1), target("B", 2)]).mode(), Mode::Multi);
    let executor = Executor::new(Operation::Off, vec![target("A", 1), target("B", 2)]);
    assert_eq!(executor.targets(), &vec![target("A", 1), target("B", 2)]);
}

#[test]
fn a_report_in_progress_covers_the_targets_served() {
    let mut executor = Executor::new(Operation::Status, vec![target("A", 1), target("B", 2)]);
    assert_eq!(executor.report().entries.len(), 0);
    executor.handle(Reply::Failed(DeviceError::Unreachable));
    let report = executor.report();
    assert_eq!(report.mode, Mode::Multi);
    assert_eq!(report.entries.len(), 1);
    assert_eq!(report.entries[0].name, "A");
    assert_eq!(report.failures(), 1);
}

#[test]
fn output_is_attributed_by_name_only_for_several_targets() {
    assert_eq!(attribute(Mode::Multi, "Desk Left", "on, 40%"), "Desk Left: on, 40%");
    assert_eq!(attribute(Mode::Single, "Desk Left", "on, 40%"), "on, 40%");
    assert_eq!(attribute(Mode::Multi, "", ""), ": ");
}
