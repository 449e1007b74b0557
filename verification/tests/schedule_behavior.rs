//! Behaviour of the scheduler: execution, ordering, conditions with change
//! detection, and the structural build errors.

use ecs_schedule::{
    Condition, LogLevel, OrderTarget, Schedule, ScheduleBuildError, ScheduleBuildSettings,
    SystemAction, SystemConfigs, SystemDesc, World,
};

const FUNCTION_TYPE: u64 = 100;
const NAMED_TYPE: u64 = 101;
const EXCLUSIVE_TYPE: u64 = 102;
const NAMED_EXCLUSIVE_TYPE: u64 = 103;
const COUNTING_TYPE: u64 = 104;
const FOO_TYPE: u64 = 105;
const BAR_TYPE: u64 = 106;
const RES_REF_TYPE: u64 = 107;
const RES_MUT_TYPE: u64 = 108;
const CHANGE_TYPE: u64 = 109;

const SET_A: u64 = 0;
const SET_B: u64 = 1;
const SET_C: u64 = 2;
const SET_D: u64 = 3;

fn make_function_system(order: usize, tag: u32) -> SystemConfigs {
    SystemConfigs::new_system(SystemDesc {
        action: SystemAction::PushValue(order, tag),
        reads: vec![],
        writes: vec![order],
        exclusive: false,
        type_key: FUNCTION_TYPE,
    })
}

fn make_exclusive_system(order: usize, tag: u32) -> SystemConfigs {
    SystemConfigs::new_system(SystemDesc {
        action: SystemAction::PushValue(order, tag),
        reads: vec![],
        writes: vec![order],
        exclusive: true,
        type_key: EXCLUSIVE_TYPE,
    })
}

fn named_system(order: usize) -> SystemConfigs {
    SystemConfigs::new_system(SystemDesc {
        action: SystemAction::PushValue(order, u32::MAX),
        reads: vec![],
        writes: vec![order],
        exclusive: false,
        type_key: NAMED_TYPE,
    })
}

fn named_exclusive_system(order: usize) -> SystemConfigs {
    SystemConfigs::new_system(SystemDesc {
        action: SystemAction::PushValue(order, u32::MAX),
        reads: vec![],
        writes: vec![order],
        exclusive: true,
        type_key: NAMED_EXCLUSIVE_TYPE,
    })
}

fn counting_system(counter: usize) -> SystemConfigs {
    SystemConfigs::new_system(SystemDesc {
        action: SystemAction::IncrementCounter(counter),
        reads: vec![counter],
        writes: vec![],
        exclusive: false,
        type_key: COUNTING_TYPE,
    })
}

fn idle_system(type_key: u64) -> SystemConfigs {
    SystemConfigs::new_system(SystemDesc {
        action: SystemAction::Idle,
        reads: vec![],
        writes: vec![],
        exclusive: false,
        type_key,
    })
}

fn named(key: u64) -> OrderTarget {
    OrderTarget::Named(key)
}

fn of_type(key: u64) -> OrderTarget {
    OrderTarget::SystemType(key)
}

#[test]
fn run_system() {
    let mut world = World::new();
    let mut schedule = Schedule::new();
    let order = world.insert_list();

    schedule.add_systems(make_function_system(order, 0));
    schedule.run(&mut world);

    assert_eq!(world.list_values(order), vec![0]);
}

#[test]
fn run_exclusive_system() {
    let mut world = World::new();
    let mut schedule = Schedule::new();
    let order = world.insert_list();

    schedule.add_systems(make_exclusive_system(order, 0));
    schedule.run(&mut world);

    assert_eq!(world.list_values(order), vec![0]);
}

#[test]
fn order_systems() {
    let mut world = World::new();
    let mut schedule = Schedule::new();
    let order = world.insert_list();

    schedule.add_systems(
        SystemConfigs::group()
            .with(named_system(order))
            .with(make_function_system(order, 1).before(of_type(NAMED_TYPE)))
            .with(make_function_system(order, 0).after(of_type(NAMED_TYPE)).in_set(SET_A)),
    );
    schedule.run(&mut world);

    assert_eq!(world.list_values(order), vec![1, u32::MAX, 0]);

    world.clear_list(order);

    assert_eq!(world.list_values(order), vec![]);

    // modify the schedule after it's been initialized and test ordering with sets
    schedule.configure_set(ecs_schedule::SetConfig::new(SET_A).after(of_type(NAMED_TYPE)));
    schedule.add_systems(
        make_function_system(order, 3)
            .before(named(SET_A))
            .after(of_type(NAMED_TYPE))
            .with(make_function_system(order, 4).after(named(SET_A))),
    );
    schedule.run(&mut world);

    assert_eq!(world.list_values(order), vec![1, u32::MAX, 3, 0, 4]);
}

#[test]
fn order_exclusive_systems() {
    let mut world = World::new();
    let mut schedule = Schedule::new();
    let order = world.insert_list();

    schedule.add_systems(
        SystemConfigs::group()
            .with(named_exclusive_system(order))
            .with(make_exclusive_system(order, 1).before(of_type(NAMED_EXCLUSIVE_TYPE)))
            .with(make_exclusive_system(order, 0).after(of_type(NAMED_EXCLUSIVE_TYPE))),
    );
    schedule.run(&mut world);

    assert_eq!(world.list_values(order), vec![1, u32::MAX, 0]);
}

#[test]
fn add_systems_correct_order() {
    let mut world = World::new();
    let mut schedule = Schedule::new();
    let order = world.insert_list();

    schedule.add_systems(
        SystemConfigs::group()
            .with(make_function_system(order, 0))
            .with(make_function_system(order, 1))
            .with(make_exclusive_system(order, 2))
            .with(make_function_system(order, 3))
            .chain(),
    );

    schedule.run(&mut world);
    assert_eq!(world.list_values(order), vec![0, 1, 2, 3]);
}

#[test]
fn add_systems_correct_order_nested() {
    let mut world = World::new();
    let mut schedule = Schedule::new();
    let order = world.insert_list();

    schedule.add_systems(
        SystemConfigs::group()
            .with(
                SystemConfigs::group()
                    .with(make_function_system(order, 0))
                    .with(make_function_system(order, 1))
                    .chain(),
            )
            .with(make_function_system(order, 2))
            .with(
                SystemConfigs::group()
                    .with(make_function_system(order, 3))
                    .with(make_function_system(order, 4))
                    .chain(),
            )
            .with(
                SystemConfigs::group().with(make_function_system(order, 5)).with(
                    SystemConfigs::group()
                        .with(make_function_system(order, 6))
                        .with(make_function_system(order, 7)),
                ),
            )
            .with(
                SystemConfigs::group()
                    .with(
                        SystemConfigs::group()
                            .with(make_function_system(order, 8))
                            .with(make_function_system(order, 9))
                            .chain(),
                    )
                    .with(make_function_system(order, 10)),
            )
            .chain(),
    );

    schedule.run(&mut world);
    let order_log = world.list_values(order);
    assert_eq!(
        &order_log[0..5],
        &[0, 1, 2, 3, 4],
        "first five items should be exactly ordered"
    );
    let unordered = &order_log[5..8];
    assert!(
        unordered.contains(&5) && unordered.contains(&6) && unordered.contains(&7),
        "unordered must be 5, 6, and 7 in any order"
    );
    let partially_ordered = &order_log[8..11];
    assert!(
        partially_ordered == [8, 9, 10] || partially_ordered == [10, 8, 9],
        "partially_ordered must be [8, 9, 10] or [10, 8, 9]"
    );
    assert!(order_log.len() == 11, "must have exacty 11 order entries");
}

#[test]
fn system_with_condition() {
    let mut world = World::new();
    let mut schedule = Schedule::new();
    let condition = world.insert_flag(false);
    let order = world.insert_list();

    schedule.add_systems(
        make_function_system(order, 0).run_if(Condition::flag_is_true(condition)),
    );

    schedule.run(&mut world);
    assert_eq!(world.list_values(order), vec![]);

    world.set_flag(condition, true);
    schedule.run(&mut world);
    assert_eq!(world.list_values(order), vec![0]);
}

#[test]
fn systems_with_distributive_condition() {
    let mut world = World::new();
    let mut schedule = Schedule::new();
    let condition = world.insert_flag(true);
    let order = world.insert_list();

    let change_condition = SystemConfigs::new_system(SystemDesc {
        action: SystemAction::SetFlag(condition, false),
        reads: vec![],
        writes: vec![condition],
        exclusive: false,
        type_key: CHANGE_TYPE,
    });

    schedule.add_systems(
        SystemConfigs::group()
            .with(make_function_system(order, 0))
            .with(change_condition)
            .with(make_function_system(order, 1))
            .chain()
            .distributive_run_if(Condition::flag_is_true(condition)),
    );

    schedule.run(&mut world);
    assert_eq!(world.list_values(order), vec![0]);
}

#[test]
fn run_exclusive_system_with_condition() {
    let mut world = World::new();
    let mut schedule = Schedule::new();
    let condition = world.insert_flag(false);
    let order = world.insert_list();

    schedule.add_systems(
        make_exclusive_system(order, 0).run_if(Condition::flag_is_true(condition)),
    );

    schedule.run(&mut world);
    assert_eq!(world.list_values(order), vec![]);

    world.set_flag(condition, true);
    schedule.run(&mut world);
    assert_eq!(world.list_values(order), vec![0]);
}

#[test]
fn multiple_conditions_on_system() {
    let mut world = World::new();
    let mut schedule = Schedule::new();
    let counter = world.insert_counter();

    schedule.add_systems(
        SystemConfigs::group()
            .with(counting_system(counter).run_if(Condition::always(false)).run_if(
                Condition::always(false),
            ))
            .with(counting_system(counter).run_if(Condition::always(true)).run_if(
                Condition::always(false),
            ))
            .with(counting_system(counter).run_if(Condition::always(false)).run_if(
                Condition::always(true),
            ))
            .with(counting_system(counter).run_if(Condition::always(true)).run_if(
                Condition::always(true),
            )),
    );

    schedule.run(&mut world);
    assert_eq!(world.counter_value(counter), 1);
}

#[test]
fn multiple_conditions_on_system_sets() {
    let mut world = World::new();
    let mut schedule = Schedule::new();
    let counter = world.insert_counter();

    schedule.configure_set(
        ecs_schedule::SetConfig::new(SET_A)
            .run_if(Condition::always(false))
            .run_if(Condition::always(false)),
    );
    schedule.add_systems(counting_system(counter).in_set(SET_A));
    schedule.configure_set(
        ecs_schedule::SetConfig::new(SET_B)
            .run_if(Condition::always(true))
            .run_if(Condition::always(false)),
    );
    schedule.add_systems(counting_system(counter).in_set(SET_B));
    schedule.configure_set(
        ecs_schedule::SetConfig::new(SET_C)
            .run_if(Condition::always(false))
            .run_if(Condition::always(true)),
    );
    schedule.add_systems(counting_system(counter).in_set(SET_C));
    schedule.configure_set(
        ecs_schedule::SetConfig::new(SET_D)
            .run_if(Condition::always(true))
            .run_if(Condition::always(true)),
    );
    schedule.add_systems(counting_system(counter).in_set(SET_D));

    schedule.run(&mut world);
    assert_eq!(world.counter_value(counter), 1);
}

#[test]
fn systems_nested_in_system_sets() {
    let mut world = World::new();
    let mut schedule = Schedule::new();
    let counter = world.insert_counter();

    schedule.configure_set(ecs_schedule::SetConfig::new(SET_A).run_if(Condition::always(false)));
    schedule.add_systems(counting_system(counter).in_set(SET_A).run_if(Condition::always(false)));
    schedule.configure_set(ecs_schedule::SetConfig::new(SET_B).run_if(Condition::always(true)));
    schedule.add_systems(counting_system(counter).in_set(SET_B).run_if(Condition::always(false)));
    schedule.configure_set(ecs_schedule::SetConfig::new(SET_C).run_if(Condition::always(false)));
    schedule.add_systems(counting_system(counter).in_set(SET_C).run_if(Condition::always(true)));
    schedule.configure_set(ecs_schedule::SetConfig::new(SET_D).run_if(Condition::always(true)));
    schedule.add_systems(counting_system(counter).in_set(SET_D).run_if(Condition::always(true)));

    schedule.run(&mut world);
    assert_eq!(world.counter_value(counter), 1);
}

#[test]
fn system_conditions_and_change_detection() {
    let mut world = World::new();
    let counter = world.insert_counter();
    let res1 = world.insert_flag(false);
    let res2 = world.insert_flag(false);
    let mut schedule = Schedule::new();

    schedule.add_systems(
        counting_system(counter)
            .run_if(Condition::resource_changed(res1))
            .run_if(Condition::resource_changed(res2)),
    );

    // both resources were just added.
    schedule.run(&mut world);
    assert_eq!(world.counter_value(counter), 1);

    // nothing has changed
    schedule.run(&mut world);
    assert_eq!(world.counter_value(counter), 1);

    // res1 has changed, but the counting system did not run
    world.set_flag(res1, false);
    schedule.run(&mut world);
    assert_eq!(world.counter_value(counter), 1);

    // internal state for the res2 condition was updated in the previous run,
    // so the system still does not run
    world.set_flag(res2, false);
    schedule.run(&mut world);
    assert_eq!(world.counter_value(counter), 1);

    // internal state for res2 was updated, so the system still does not run
    world.set_flag(res1, false);
    schedule.run(&mut world);
    assert_eq!(world.counter_value(counter), 1);

    // the system only runs when both are changed on the same run
    world.set_flag(res2, false);
    world.set_flag(res1, false);
    schedule.run(&mut world);
    assert_eq!(world.counter_value(counter), 2);
}

#[test]
fn system_set_conditions_and_change_detection() {
    let mut world = World::new();
    let counter = world.insert_counter();
    let res1 = world.insert_flag(false);
    let res2 = world.insert_flag(false);
    let mut schedule = Schedule::new();

    schedule.configure_set(
        ecs_schedule::SetConfig::new(SET_A)
            .run_if(Condition::resource_changed(res1))
            .run_if(Condition::resource_changed(res2)),
    );

    schedule.add_systems(counting_system(counter).in_set(SET_A));

    // both resources were just added.
    schedule.run(&mut world);
    assert_eq!(world.counter_value(counter), 1);

    // nothing has changed
    schedule.run(&mut world);
    assert_eq!(world.counter_value(counter), 1);

    // res1 has changed, but the counting system did not run
    world.set_flag(res1, false);
    schedule.run(&mut world);
    assert_eq!(world.counter_value(counter), 1);

    // internal state for the res2 condition was updated in the previous run,
    // so the system still does not run
    world.set_flag(res2, false);
    schedule.run(&mut world);
    assert_eq!(world.counter_value(counter), 1);

    // internal state for res2 was updated, so the system still does not run
    world.set_flag(res1, false);
    schedule.run(&mut world);
    assert_eq!(world.counter_value(counter), 1);

    // the system only runs when both are changed on the same run
    world.set_flag(res2, false);
    world.set_flag(res1, false);
    schedule.run(&mut world);
    assert_eq!(world.counter_value(counter), 2);
}

#[test]
fn mixed_conditions_and_change_detection() {
    let mut world = World::new();
    let counter = world.insert_counter();
    let res1 = world.insert_flag(false);
    let res2 = world.insert_flag(false);
    let mut schedule = Schedule::new();

    schedule.configure_set(
        ecs_schedule::SetConfig::new(SET_A).run_if(Condition::resource_changed(res1)),
    );

    schedule.add_systems(
        counting_system(counter).run_if(Condition::resource_changed(res2)).in_set(SET_A),
    );

    // both resources were just added.
    schedule.run(&mut world);
    assert_eq!(world.counter_value(counter), 1);

    // nothing has changed
    schedule.run(&mut world);
    assert_eq!(world.counter_value(counter), 1);

    // res1 has changed, but the counting system did not run
    world.set_flag(res1, false);
    schedule.run(&mut world);
    assert_eq!(world.counter_value(counter), 1);

    // we now only change res2 and the system also should not run
    world.set_flag(res2, false);
    schedule.run(&mut world);
    assert_eq!(world.counter_value(counter), 1);

    // internal state for the res2 condition was updated in the previous run,
    // so the system still does not run
    world.set_flag(res1, false);
    schedule.run(&mut world);
    assert_eq!(world.counter_value(counter), 1);

    // the system only runs when both are changed on the same run
    world.set_flag(res2, false);
    world.set_flag(res1, false);
    schedule.run(&mut world);
    assert_eq!(world.counter_value(counter), 2);
}

#[test]
fn dependency_cycle() {
    let mut schedule = Schedule::new();

    schedule.configure_set(ecs_schedule::SetConfig::new(SET_A).after(named(SET_B)));
    schedule.configure_set(ecs_schedule::SetConfig::new(SET_B).after(named(SET_A)));

    let result = schedule.initialize();
    assert!(matches!(result, Err(ScheduleBuildError::DependencyCycle)));

    let mut schedule = Schedule::new();

    schedule.add_systems(
        SystemConfigs::group()
            .with(idle_system(FOO_TYPE).after(of_type(BAR_TYPE)))
            .with(idle_system(BAR_TYPE).after(of_type(FOO_TYPE))),
    );
    let result = schedule.initialize();
    assert!(matches!(result, Err(ScheduleBuildError::DependencyCycle)));
}

#[test]
fn hierarchy_cycle() {
    let mut schedule = Schedule::new();

    schedule.configure_set(ecs_schedule::SetConfig::new(SET_A).in_set(SET_B));
    schedule.configure_set(ecs_schedule::SetConfig::new(SET_B).in_set(SET_A));

    let result = schedule.initialize();
    assert!(matches!(result, Err(ScheduleBuildError::HierarchyCycle)));
}

#[test]
fn system_type_set_ambiguity() {
    let mut schedule = Schedule::new();

    // Schedule `bar` to run after `foo`.
    schedule.add_systems(
        SystemConfigs::group()
            .with(idle_system(FOO_TYPE))
            .with(idle_system(BAR_TYPE).after(of_type(FOO_TYPE))),
    );

    // There's only one `foo`, so it's fine.
    let result = schedule.initialize();
    assert!(result.is_ok());

    // Schedule another `foo`.
    schedule.add_systems(idle_system(FOO_TYPE));

    // When there are multiple instances of `foo`, dependencies on `foo` are
    // no longer allowed. Too much ambiguity.
    let result = schedule.initialize();
    assert!(matches!(
        result,
        Err(ScheduleBuildError::SystemTypeSetAmbiguity(_))
    ));

    // same goes for the ambiguity whitelist
    let mut schedule = Schedule::new();
    schedule.add_systems(idle_system(FOO_TYPE));
    schedule.add_systems(idle_system(BAR_TYPE).ambiguous_with(of_type(FOO_TYPE)));
    let result = schedule.initialize();
    assert!(result.is_ok());
    schedule.add_systems(idle_system(FOO_TYPE));
    let result = schedule.initialize();
    assert!(matches!(
        result,
        Err(ScheduleBuildError::SystemTypeSetAmbiguity(_))
    ));
}

#[test]
fn hierarchy_redundancy() {
    let mut schedule = Schedule::new();

    schedule.set_build_settings(ScheduleBuildSettings {
        hierarchy_detection: LogLevel::Error,
        ambiguity_detection: LogLevel::Ignore,
    });

    // Add `A`.
    schedule.configure_set(ecs_schedule::SetConfig::new(SET_A));

    // Add `B` as child of `A`.
    schedule.configure_set(ecs_schedule::SetConfig::new(SET_B).in_set(SET_A));

    // Add `X` as child of both `A` and `B`.
    schedule.configure_set(ecs_schedule::SetConfig::new(4).in_set(SET_A).in_set(SET_B));

    // `X` cannot be the `A`'s child and grandchild at the same time.
    let result = schedule.initialize();
    assert!(matches!(
        result,
        Err(ScheduleBuildError::HierarchyRedundancy)
    ));
}

#[test]
fn cross_dependency() {
    let mut schedule = Schedule::new();

    // Add `B` and give it both kinds of relationships with `A`.
    schedule.configure_set(ecs_schedule::SetConfig::new(SET_B).in_set(SET_A));
    schedule.configure_set(ecs_schedule::SetConfig::new(SET_B).after(named(SET_A)));
    let result = schedule.initialize();
    assert!(matches!(
        result,
        Err(ScheduleBuildError::CrossDependency(_, _))
    ));
}

#[test]
fn sets_have_order_but_intersect() {
    let mut schedule = Schedule::new();

    // Add `foo` to both `A` and `C`.
    schedule.add_systems(idle_system(FOO_TYPE).in_set(SET_A).in_set(SET_C));

    // Order `A -> B -> C`.
    schedule.configure_sets(vec![
        ecs_schedule::SetConfig::new(SET_A),
        ecs_schedule::SetConfig::new(SET_B).after(named(SET_A)),
        ecs_schedule::SetConfig::new(SET_C).after(named(SET_B)),
    ]);

    let result = schedule.initialize();
    // `foo` can't be in both `A` and `C` because they can't run at the same time.
    assert!(matches!(
        result,
        Err(ScheduleBuildError::SetsHaveOrderButIntersect(_, _))
    ));
}

#[test]
fn ambiguity() {
    let mut world = World::new();
    let x = world.insert_flag(false);

    let res_ref = SystemConfigs::new_system(SystemDesc {
        action: SystemAction::Idle,
        reads: vec![x],
        writes: vec![],
        exclusive: false,
        type_key: RES_REF_TYPE,
    });
    let res_mut = SystemConfigs::new_system(SystemDesc {
        action: SystemAction::Idle,
        reads: vec![],
        writes: vec![x],
        exclusive: false,
        type_key: RES_MUT_TYPE,
    });

    let mut schedule = Schedule::new();

    schedule.set_build_settings(ScheduleBuildSettings {
        hierarchy_detection: LogLevel::Warn,
        ambiguity_detection: LogLevel::Error,
    });

    schedule.add_systems(SystemConfigs::group().with(res_ref).with(res_mut));
    let result = schedule.initialize();
    assert!(matches!(result, Err(ScheduleBuildError::Ambiguity)));
}

#[test]
fn chain_is_associative_in_practice() {
    // Chaining three systems flat or nested against a chained pair gives the
    // same execution order.
    let mut world_a = World::new();
    let order_a = world_a.insert_list();
    let mut flat = Schedule::new();
    flat.add_systems(
        SystemConfigs::group()
            .with(make_function_system(order_a, 0))
            .with(make_function_system(order_a, 1))
            .with(make_function_system(order_a, 2))
            .chain(),
    );
    flat.run(&mut world_a);

    let mut world_b = World::new();
    let order_b = world_b.insert_list();
    let mut nested = Schedule::new();
    nested.add_systems(
        SystemConfigs::group()
            .with(make_function_system(order_b, 0))
            .with(
                SystemConfigs::group()
                    .with(make_function_system(order_b, 1))
                    .with(make_function_system(order_b, 2))
                    .chain(),
            )
            .chain(),
    );
    nested.run(&mut world_b);

    assert_eq!(world_a.list_values(order_a), world_b.list_values(order_b));
    assert_eq!(world_a.list_values(order_a), vec![0, 1, 2]);
}

#[test]
fn empty_schedule_runs() {
    let mut world = World::new();
    let mut schedule = Schedule::new();
    schedule.run(&mut world);
    let mut schedule2 = Schedule::new();
    assert!(schedule2.initialize().is_ok());
}

#[test]
fn whitelist_suppresses_ambiguity() {
    let mut world = World::new();
    let x = world.insert_flag(false);

    let res_ref = SystemConfigs::new_system(SystemDesc {
        action: SystemAction::Idle,
        reads: vec![x],
        writes: vec![],
        exclusive: false,
        type_key: RES_REF_TYPE,
    });
    let res_mut = SystemConfigs::new_system(SystemDesc {
        action: SystemAction::Idle,
        reads: vec![],
        writes: vec![x],
        exclusive: false,
        type_key: RES_MUT_TYPE,
    });

    let mut schedule = Schedule::new();
    schedule.set_build_settings(ScheduleBuildSettings {
        hierarchy_detection: LogLevel::Warn,
        ambiguity_detection: LogLevel::Error,
    });
    schedule.add_systems(
        SystemConfigs::group()
            .with(res_ref)
            .with(res_mut.ambiguous_with(of_type(RES_REF_TYPE))),
    );
    assert!(schedule.initialize().is_ok());
}

#[test]
fn mutation_invalidates_plan() {
    // After any builder call, the next run observes all prior edits.
    let mut world = World::new();
    let mut schedule = Schedule::new();
    let order = world.insert_list();

    schedule.add_systems(make_function_system(order, 0));
    schedule.run(&mut world);
    assert_eq!(world.list_values(order), vec![0]);

    // A later edit is picked up by the next run without further ado.
    schedule.add_systems(make_function_system(order, 1).before(of_type(NAMED_TYPE)));
    schedule.add_systems(named_system(order));
    world.clear_list(order);
    schedule.run(&mut world);
    assert_eq!(world.list_values(order), vec![0, 1, u32::MAX]);
}
