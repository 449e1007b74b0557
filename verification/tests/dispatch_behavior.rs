//! Driving the dispatch machine of the multi-threaded executor by hand, the
//! way a worker-pool driver would: pick a startable position, start it, and
//! report its completion.

use ecs_schedule::{Schedule, SystemAction, SystemConfigs, SystemDesc, OrderTarget};

fn tagged_idle(type_key: u64) -> SystemConfigs {
    SystemConfigs::new_system(SystemDesc {
        action: SystemAction::Idle,
        reads: vec![],
        writes: vec![],
        exclusive: false,
        type_key,
    })
}

#[test]
fn dispatch_machine_completes_a_tick() {
    let mut schedule = Schedule::new();
    schedule.add_systems(
        SystemConfigs::group()
            .with(tagged_idle(200))
            .with(tagged_idle(201).after(OrderTarget::SystemType(200)))
            .with(tagged_idle(202).after(OrderTarget::SystemType(201))),
    );
    assert!(schedule.initialize().is_ok());

    let mut st = schedule.dispatch_begin();
    let m = schedule.dispatch_len();
    assert_eq!(m, 3);

    // The chain 200 -> 201 -> 202 admits exactly one dispatch order.
    let mut started = Vec::new();
    let mut rounds = 0;
    while !schedule.dispatch_done(&st) {
        rounds += 1;
        assert!(rounds <= 3, "a serial driver finishes one position per round");
        let mut progressed = false;
        let mut q = 0;
        while q < m {
            if schedule.dispatch_can_start(&st, q) {
                schedule.dispatch_start(&mut st, q);
                started.push(schedule.dispatch_system_at(q));
                schedule.dispatch_finish(&mut st, q);
                progressed = true;
                break;
            }
            q += 1;
        }
        assert!(progressed, "an acyclic plan always has a startable position");
    }
    assert_eq!(started.len(), 3);
}

#[test]
fn dispatch_machine_skips_release_dependents() {
    let mut schedule = Schedule::new();
    schedule.add_systems(
        SystemConfigs::group()
            .with(tagged_idle(210))
            .with(tagged_idle(211).after(OrderTarget::SystemType(210)))
            .chain(),
    );
    assert!(schedule.initialize().is_ok());

    let mut st = schedule.dispatch_begin();
    // Retire the first position without running it; the second comes free.
    assert!(schedule.dispatch_can_start(&st, 0));
    assert!(!schedule.dispatch_can_start(&st, 1));
    schedule.dispatch_skip(&mut st, 0);
    assert!(schedule.dispatch_can_start(&st, 1));
    schedule.dispatch_start(&mut st, 1);
    schedule.dispatch_finish(&mut st, 1);
    assert!(schedule.dispatch_done(&st));
}

#[test]
fn exclusive_position_runs_alone() {
    let mut schedule = Schedule::new();
    schedule.add_systems(
        SystemConfigs::group()
            .with(tagged_idle(220))
            .with(SystemConfigs::new_system(SystemDesc {
                action: SystemAction::Idle,
                reads: vec![],
                writes: vec![],
                exclusive: true,
                type_key: 221,
            })),
    );
    assert!(schedule.initialize().is_ok());

    let mut st = schedule.dispatch_begin();
    // Both are unordered; start the plain one first.
    assert!(schedule.dispatch_can_start(&st, 0));
    schedule.dispatch_start(&mut st, 0);
    // The exclusive position must wait for a drained pool.
    assert!(!schedule.dispatch_can_start(&st, 1));
    schedule.dispatch_finish(&mut st, 0);
    assert!(schedule.dispatch_can_start(&st, 1));
    schedule.dispatch_start(&mut st, 1);
    // And nothing may join it while it runs.
    assert!(!schedule.dispatch_done(&st));
    schedule.dispatch_finish(&mut st, 1);
    assert!(schedule.dispatch_done(&st));
}
