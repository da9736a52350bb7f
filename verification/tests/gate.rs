use defmt_userbuff::AcquireOutcome;
use defmt_userbuff::WriterArbiter;

#[test]
fn scenario_acquire_release() {
    // Simulated preemption state of the surrounding runtime: the caller
    // masks before each acquire and reports what it saw, and restores only
    // when the arbiter says so.
    let mut preemption = true;
    let mut arb = WriterArbiter::new();

    // First acquire on Free succeeds; preemption stays masked.
    let was = preemption;
    preemption = false;
    assert_eq!(arb.acquire(was), AcquireOutcome::Acquired);
    assert!(!preemption);

    // A re-entrant acquire before release is refused, and preemption is
    // left exactly as it stood: masked, because the first acquisition
    // masked it and still holds the slot.
    let was_nested = preemption;
    preemption = false;
    match arb.acquire(was_nested) {
        AcquireOutcome::Refused { restore_preemption } => {
            if restore_preemption {
                preemption = true;
            }
        }
        AcquireOutcome::Acquired => panic!("re-entrant acquire must be refused"),
    }
    assert!(!preemption);

    // Release returns to Free and re-enables preemption, since it had been
    // enabled before the first acquire.
    if arb.release() {
        preemption = true;
    }
    assert!(preemption);

    // A following acquire succeeds again.
    let was = preemption;
    preemption = false;
    assert_eq!(arb.acquire(was), AcquireOutcome::Acquired);
    if arb.release() {
        preemption = true;
    }
    assert!(preemption);
}

#[test]
fn release_inside_outer_critical_section_stays_masked() {
    // Acquired while preemption was already masked by an outer critical
    // section: release must not re-enable it.
    let mut preemption = false;
    let mut arb = WriterArbiter::new();
    assert_eq!(arb.acquire(preemption), AcquireOutcome::Acquired);
    if arb.release() {
        preemption = true;
    }
    assert!(!preemption);
}

#[test]
fn refused_acquire_reports_callers_own_state() {
    let mut arb = WriterArbiter::new();
    assert_eq!(arb.acquire(true), AcquireOutcome::Acquired);
    // Whatever state the nested caller saw is what it is told to restore.
    assert_eq!(
        arb.acquire(true),
        AcquireOutcome::Refused { restore_preemption: true }
    );
    assert_eq!(
        arb.acquire(false),
        AcquireOutcome::Refused { restore_preemption: false }
    );
    assert!(arb.release());
}
