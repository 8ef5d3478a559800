use piercast::health::{HealthMachine, HealthState};

#[test]
fn health_state_machine_thresholds() {
    let mut m = HealthMachine::new(2, 3);
    assert_eq!(m.state(), HealthState::Unknown);
    m.observe(true);
    assert_eq!(m.state(), HealthState::Unknown);
    m.observe(true);
    assert_eq!(m.state(), HealthState::Healthy);
    m.observe(false);
    m.observe(false);
    assert_eq!(m.state(), HealthState::Healthy);
    m.observe(false);
    assert_eq!(m.state(), HealthState::Unhealthy);
    m.observe(true);
    m.observe(true);
    assert_eq!(m.state(), HealthState::Healthy);
}

#[test]
fn zero_thresholds_are_raised_to_one() {
    let mut m = HealthMachine::new(0, 0);
    assert_eq!(m.observe(true), HealthState::Healthy);
    assert_eq!(m.observe(false), HealthState::Unhealthy);
}

#[test]
fn reset_forgets_observations() {
    let mut m = HealthMachine::new(1, 1);
    m.observe(true);
    m.reset();
    assert_eq!(m.state(), HealthState::Unknown);
    // one success is again enough
    assert_eq!(m.observe(true), HealthState::Healthy);
}

#[test]
fn hysteresis_keeps_healthy_through_short_failures() {
    let mut m = HealthMachine::new(1, 4);
    m.observe(true);
    for _ in 0..3 {
        assert_eq!(m.observe(false), HealthState::Healthy);
    }
    assert_eq!(m.observe(false), HealthState::Unhealthy);
    // a single success under a higher healthy threshold does not recover
    let mut n = HealthMachine::new(3, 1);
    n.observe(false);
    assert_eq!(n.observe(true), HealthState::Unhealthy);
    assert_eq!(n.observe(true), HealthState::Unhealthy);
    assert_eq!(n.observe(true), HealthState::Healthy);
}

#[test]
fn health_labels() {
    assert_eq!(HealthState::Unknown.label(), "unknown");
    assert_eq!(HealthState::Healthy.label(), "healthy");
    assert_eq!(HealthState::Unhealthy.label(), "unhealthy");
}

#[test]
fn history_since_reset_decides() {
    let mut m = HealthMachine::new(3, 2);
    m.observe(true);
    m.observe(true);
    m.observe(true);
    assert_eq!(m.state(), HealthState::Healthy);
    m.reset();
    assert_eq!(m.state(), HealthState::Unknown);
    m.observe(true);
    m.observe(false);
    assert_eq!(m.state(), HealthState::Unknown);
    assert_eq!(m.observe(false), HealthState::Unhealthy);
    m.observe(true);
    m.observe(true);
    assert_eq!(m.observe(true), HealthState::Healthy);
}
