use basita::scheduler::{Action, Phase, Scheduler};

struct World {
    running: bool,
    x: i32,
    seen_by_b: Option<i32>,
    log: Vec<String>,
}

enum TestSystem {
    SetsX,
    ReadsX,
    Stops,
    Logs(&'static str),
}

impl TestSystem {
    fn init(&self, w: &mut World) {
        match self {
            TestSystem::SetsX => w.x = 1,
            TestSystem::ReadsX => w.seen_by_b = Some(w.x),
            TestSystem::Stops => w.log.push("init stop".to_string()),
            TestSystem::Logs(n) => w.log.push(format!("init {}", n)),
        }
    }

    fn update(&self, w: &mut World) {
        match self {
            TestSystem::Stops => {
                w.log.push("update stop".to_string());
                w.running = false;
            }
            TestSystem::Logs(n) => w.log.push(format!("update {}", n)),
            _ => {}
        }
    }
}

fn run(systems: &[TestSystem], w: &mut World) {
    let mut s = Scheduler::new(systems.len());
    loop {
        match s.next_action(w.running) {
            Action::Init(i) => systems[i].init(w),
            Action::Update(i) => systems[i].update(w),
            Action::Idle => {}
            Action::Stop => break,
        }
    }
    assert_eq!(s.phase(), Phase::Stopped);
}

fn world() -> World {
    World { running: true, x: 0, seen_by_b: None, log: Vec::new() }
}

#[test]
fn later_init_sees_earlier_init() {
    let mut w = world();
    run(&[TestSystem::SetsX, TestSystem::ReadsX, TestSystem::Stops], &mut w);
    assert_eq!(w.seen_by_b, Some(1));
}

#[test]
fn systems_after_the_stopper_still_update() {
    let mut w = world();
    run(&[TestSystem::Stops, TestSystem::Logs("b")], &mut w);
    assert_eq!(w.log, vec!["init stop", "init b", "update stop", "update b"]);
}

#[test]
fn stopping_in_the_last_system_ends_after_one_frame() {
    let mut w = world();
    run(&[TestSystem::Logs("a"), TestSystem::Logs("b"), TestSystem::Stops], &mut w);
    assert_eq!(
        w.log,
        vec!["init a", "init b", "init stop", "update a", "update b", "update stop"]
    );
}

#[test]
fn cleared_flag_stops_before_any_update() {
    let mut w = world();
    w.running = false;
    run(&[TestSystem::Logs("a")], &mut w);
    assert_eq!(w.log, vec!["init a"]);
}

#[test]
fn step_by_step_actions() {
    let mut s = Scheduler::new(2);
    assert_eq!(s.phase(), Phase::Initializing);
    assert_eq!(s.next_action(true), Action::Init(0));
    assert_eq!(s.next_action(true), Action::Init(1));
    assert_eq!(s.next_action(true), Action::Update(0));
    assert_eq!(s.phase(), Phase::Running);
    assert_eq!(s.next_action(false), Action::Update(1));
    assert_eq!(s.next_action(false), Action::Stop);
    assert_eq!(s.next_action(true), Action::Stop);
}

#[test]
fn no_systems_idles_until_stopped() {
    let mut s = Scheduler::new(0);
    assert_eq!(s.next_action(true), Action::Idle);
    assert_eq!(s.next_action(true), Action::Idle);
    assert_eq!(s.next_action(false), Action::Stop);
}
