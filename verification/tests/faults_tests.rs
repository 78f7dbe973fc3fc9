use mysticeti_core::faults::{CrashRecoverySchedule, FaultsType};
use mysticeti_core::instance::Instance;

#[test]
fn crash_recovery_1_fault() {
    let max_faults = 1;
    let interval_secs = 60;
    let faulty = (0..max_faults)
        .map(|i| Instance::new_for_test(i.to_string()))
        .collect();
    let mut schedule = CrashRecoverySchedule::new(
        FaultsType::CrashRecovery {
            max_faults,
            interval_secs,
        },
        faulty,
    );

    let action = schedule.update();
    assert_eq!(action.boot.len(), 0);
    assert_eq!(action.kill.len(), 1);

    let action = schedule.update();
    assert_eq!(action.boot.len(), 1);
    assert_eq!(action.kill.len(), 0);

    let action = schedule.update();
    assert_eq!(action.boot.len(), 0);
    assert_eq!(action.kill.len(), 1);

    let action = schedule.update();
    assert_eq!(action.boot.len(), 1);
    assert_eq!(action.kill.len(), 0);
}

#[test]
fn crash_recovery_2_faults() {
    let max_faults = 2;
    let interval_secs = 60;
    let faulty = (0..max_faults)
        .map(|i| Instance::new_for_test(i.to_string()))
        .collect();
    let mut schedule = CrashRecoverySchedule::new(
        FaultsType::CrashRecovery {
            max_faults,
            interval_secs,
        },
        faulty,
    );

    let action = schedule.update();
    assert_eq!(action.boot.len(), 0);
    assert_eq!(action.kill.len(), 2);

    let action = schedule.update();
    assert_eq!(action.boot.len(), 2);
    assert_eq!(action.kill.len(), 0);

    let action = schedule.update();
    assert_eq!(action.boot.len(), 0);
    assert_eq!(action.kill.len(), 2);

    let action = schedule.update();
    assert_eq!(action.boot.len(), 2);
    assert_eq!(action.kill.len(), 0);
}

#[test]
fn crash_recovery() {
    let interval_secs = 60;
    for i in 3..33 {
        let max_faults = i;
        let min_faults = max_faults / 3;

        let instances = (0..max_faults)
            .map(|i| Instance::new_for_test(i.to_string()))
            .collect();
        let mut schedule = CrashRecoverySchedule::new(
            FaultsType::CrashRecovery {
                max_faults,
                interval_secs,
            },
            instances,
        );

        let action = schedule.update();
        assert_eq!(action.boot.len(), 0);
        assert_eq!(action.kill.len(), min_faults);

        let action = schedule.update();
        assert_eq!(action.boot.len(), 0);
        assert_eq!(action.kill.len(), min_faults);

        let action = schedule.update();
        assert_eq!(action.boot.len(), 0);
        assert_eq!(action.kill.len(), max_faults - 2 * min_faults);

        let action = schedule.update();
        assert_eq!(action.boot.len(), max_faults);
        assert_eq!(action.kill.len(), 0);

        let action = schedule.update();
        assert_eq!(action.boot.len(), 0);
        assert_eq!(action.kill.len(), min_faults);
    }
}
