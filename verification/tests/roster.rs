use pixel_agents::agent::{AgentEvent, AgentState, Duration};
use pixel_agents::grid::Pos;
use pixel_agents::office::{direction_from_delta, timer_events};
use pixel_agents::pixels::Rgba;
use pixel_agents::roster::Office;
use pixel_agents::scene::is_drawable;

const RED: Rgba = Rgba { r: 217, g: 38, b: 38, a: 255 };

#[test]
fn agents_take_desks_in_order_and_free_them_on_despawn() {
    let mut office = Office::new();
    for k in 0..7 {
        office.add_agent(format!("t{}.jsonl", k), RED, RED, 0);
    }
    assert_eq!(office.desks(), [true; 6]);
    let desks: Vec<Option<usize>> = office.agents().iter().map(|a| a.walker.desk).collect();
    assert_eq!(desks, vec![Some(0), Some(1), Some(2), Some(3), Some(4), Some(5), None]);
    assert!(office.has_agent("t3.jsonl"));
    assert!(!office.has_agent("t9.jsonl"));

    // agents 1 and 6 time out
    office.apply_event(1, AgentEvent::DespawnTimeout, 5);
    office.apply_event(6, AgentEvent::DespawnTimeout, 5);
    let removed = office.remove_despawned();
    assert_eq!(removed, vec!["t1.jsonl".to_string(), "t6.jsonl".to_string()]);
    assert_eq!(office.agents().len(), 5);
    assert_eq!(office.desks(), [true, false, true, true, true, true]);

    // the next agent gets the freed desk
    office.add_agent("t7.jsonl".to_string(), RED, RED, 6);
    assert_eq!(office.agents()[5].walker.desk, Some(1));
    assert_eq!(office.desks(), [true; 6]);
}

#[test]
fn events_and_walking_through_the_office() {
    let mut office = Office::new();
    office.add_agent("a".to_string(), RED, RED, 0);
    let start = office.agents()[0].walker.pos;
    assert_eq!(start, Pos { x: 8, y: 10 });
    assert!(!office.agents()[0].walker.path.is_empty());
    // every third tick is a step
    assert!(!office.advance(0).moved);
    assert!(!office.advance(0).moved);
    assert!(office.advance(0).moved);
    assert_ne!(office.agents()[0].walker.pos, start);
    // a tool start while walking keeps it walking, asking for the way back
    let reset = office.apply_event(0, AgentEvent::ToolStart("Edit".to_string()), 1);
    assert!(!reset);
    assert_eq!(office.agents()[0].walker.state, AgentState::Walking);
    // a permission prompt makes it wait
    office.apply_event(0, AgentEvent::PermissionPrompt, 1);
    assert_eq!(office.agents()[0].walker.state, AgentState::Waiting);
    // the end of the tool resets its idle timer
    assert!(office.apply_event(0, AgentEvent::ToolEnd, 1));
    assert_eq!(office.agents()[0].walker.state, AgentState::Idle);
    assert_eq!(office.agents()[0].walker.desk, Some(0));
}

#[test]
fn timers_despawn_after_a_minute_and_wander_after_three_seconds() {
    let secs = |s: u64| Duration::from_secs(s);
    let just_under = Duration::new(59, 999_999_999);
    assert_eq!(timer_events(AgentState::Typing, &secs(100), &secs(60)), vec![AgentEvent::DespawnTimeout]);
    assert_eq!(timer_events(AgentState::Idle, &secs(100), &secs(60)), vec![AgentEvent::DespawnTimeout]);
    assert_eq!(timer_events(AgentState::Idle, &secs(3), &just_under), vec![AgentEvent::Tick(secs(3))]);
    assert_eq!(timer_events(AgentState::Idle, &Duration::new(2, 999_999_999), &secs(1)), vec![]);
    assert_eq!(timer_events(AgentState::Typing, &secs(10), &secs(1)), vec![]);
}

#[test]
fn directions_for_large_coordinates() {
    let big = 0x7fff_fff0usize;
    let o = Pos { x: big, y: big };
    assert_eq!(direction_from_delta(o, Pos { x: big, y: big + 1 }), 0);
    assert_eq!(direction_from_delta(o, Pos { x: big, y: 1 }), 1);
    assert_eq!(direction_from_delta(o, Pos { x: big + 5, y: big }), 2);
    assert_eq!(direction_from_delta(o, Pos { x: 0, y: big }), 3);
    assert_eq!(direction_from_delta(Pos { x: 5, y: 5 }, Pos { x: 5, y: 5 }), 1);
}

#[test]
fn drawable_positions() {
    assert!(is_drawable(Pos { x: 5, y: 5 }));
    assert!(is_drawable(Pos { x: 0x0fff_ffff, y: 0x0800_0000 }));
    assert!(!is_drawable(Pos { x: 0x1000_0000, y: 0 }));
    assert!(!is_drawable(Pos { x: 0, y: 0x07ff_ffff }));
}
