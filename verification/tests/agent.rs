use pixel_agents::agent::{transition, AgentEvent, AgentState, Duration, SideEffect};

// 1. Spawned + Init -> Walking + [RequestDeskPath]
#[test]
fn test_spawn_to_walking() {
    let (state, effects) = transition(AgentState::Spawned, AgentEvent::Init);
    assert_eq!(state, AgentState::Walking);
    assert_eq!(effects, vec![SideEffect::RequestDeskPath]);
}

// 2. Idle + ToolStart("Write") -> Typing
#[test]
fn test_idle_to_typing() {
    let (state, effects) = transition(AgentState::Idle, AgentEvent::ToolStart("Write".into()));
    assert_eq!(state, AgentState::Typing);
    assert!(effects.is_empty());
}

// 3. Idle + ToolStart("Read") -> Reading
#[test]
fn test_idle_to_reading() {
    let (state, effects) = transition(AgentState::Idle, AgentEvent::ToolStart("Read".into()));
    assert_eq!(state, AgentState::Reading);
    assert!(effects.is_empty());
}

// 4. Typing + ToolEnd -> Idle + [ResetIdleTimer]
#[test]
fn test_typing_to_idle_on_tool_end() {
    let (state, effects) = transition(AgentState::Typing, AgentEvent::ToolEnd);
    assert_eq!(state, AgentState::Idle);
    assert_eq!(effects, vec![SideEffect::ResetIdleTimer]);
}

// 5. Idle + Tick(3s) -> Walking + [RequestWanderPath]
#[test]
fn test_idle_timeout_to_walking() {
    let (state, effects) = transition(AgentState::Idle, AgentEvent::Tick(Duration::from_secs(3)));
    assert_eq!(state, AgentState::Walking);
    assert_eq!(effects, vec![SideEffect::RequestWanderPath]);
}

// 6. Idle + Tick(1s) -> Idle + [] (no change)
#[test]
fn test_idle_no_timeout_yet() {
    let (state, effects) = transition(AgentState::Idle, AgentEvent::Tick(Duration::from_secs(1)));
    assert_eq!(state, AgentState::Idle);
    assert!(effects.is_empty());
}

// 7. Walking + ToolStart("Write") -> Walking + [RequestReturnPath]
#[test]
fn test_walking_to_typing_on_tool_event() {
    let (state, effects) =
        transition(AgentState::Walking, AgentEvent::ToolStart("Write".into()));
    assert_eq!(state, AgentState::Walking);
    assert_eq!(effects, vec![SideEffect::RequestReturnPath]);
}

// 8. Any + PermissionPrompt -> Waiting + [ShowBubble]
#[test]
fn test_any_to_waiting() {
    for start in [
        AgentState::Spawned,
        AgentState::Walking,
        AgentState::Typing,
        AgentState::Reading,
        AgentState::Idle,
    ] {
        let (state, effects) = transition(start, AgentEvent::PermissionPrompt);
        assert_eq!(state, AgentState::Waiting, "failed from {start:?}");
        assert_eq!(effects, vec![SideEffect::ShowBubble], "failed from {start:?}");
    }
}

// 9. Waiting + ToolStart("Edit") -> Typing + [HideBubble]
#[test]
fn test_waiting_to_typing() {
    let (state, effects) = transition(AgentState::Waiting, AgentEvent::ToolStart("Edit".into()));
    assert_eq!(state, AgentState::Typing);
    assert_eq!(effects, vec![SideEffect::HideBubble]);
}

// 10. Any + DespawnTimeout -> Despawn + [FadeOut, FreeSeat]
#[test]
fn test_despawn() {
    for start in [
        AgentState::Spawned,
        AgentState::Walking,
        AgentState::Typing,
        AgentState::Reading,
        AgentState::Idle,
        AgentState::Waiting,
    ] {
        let (state, effects) = transition(start, AgentEvent::DespawnTimeout);
        assert_eq!(state, AgentState::Despawn, "failed from {start:?}");
        assert_eq!(
            effects,
            vec![SideEffect::FadeOut, SideEffect::FreeSeat],
            "failed from {start:?}"
        );
    }
}

// 11. Typing + ToolStart("Read") -> Reading (rapid tool switch)
#[test]
fn test_rapid_tool_switch() {
    let (state, effects) = transition(AgentState::Typing, AgentEvent::ToolStart("Read".into()));
    assert_eq!(state, AgentState::Reading);
    assert!(effects.is_empty());
}

// 12. Idle + ToolEnd -> Idle (no-op)
#[test]
fn test_tool_end_when_idle_is_noop() {
    let (state, effects) = transition(AgentState::Idle, AgentEvent::ToolEnd);
    assert_eq!(state, AgentState::Idle);
    assert!(effects.is_empty());
}

// 13. Idle + ToolStart("Agent") -> Walking + [SpawnSubAgent("Agent")]
#[test]
fn test_agent_tool_spawns_child() {
    let (state, effects) = transition(AgentState::Idle, AgentEvent::ToolStart("Agent".into()));
    assert_eq!(state, AgentState::Walking);
    assert_eq!(effects, vec![SideEffect::SpawnSubAgent("Agent".into())]);
}

// 14. Idle + ToolStart("SomeFutureTool") -> Idle (unknown tool maps to Idle)
#[test]
fn test_unknown_tool_maps_to_idle() {
    let (state, effects) =
        transition(AgentState::Idle, AgentEvent::ToolStart("SomeFutureTool".into()));
    assert_eq!(state, AgentState::Idle);
    assert!(effects.is_empty());
}

// ---- further cases ----

#[test]
fn idle_tick_just_below_timeout_stays_idle() {
    let (state, effects) =
        transition(AgentState::Idle, AgentEvent::Tick(Duration::new(2, 999_999_999)));
    assert_eq!(state, AgentState::Idle);
    assert!(effects.is_empty());
    let (state, _) = transition(AgentState::Idle, AgentEvent::Tick(Duration::from_millis(3000)));
    assert_eq!(state, AgentState::Walking);
}

#[test]
fn tick_does_not_move_busy_agents() {
    for start in [AgentState::Typing, AgentState::Reading, AgentState::Waiting, AgentState::Walking] {
        let (state, effects) = transition(start, AgentEvent::Tick(Duration::from_secs(60)));
        assert_eq!(state, start);
        assert!(effects.is_empty());
    }
}

#[test]
fn waiting_tool_end_hides_bubble() {
    let (state, effects) = transition(AgentState::Waiting, AgentEvent::ToolEnd);
    assert_eq!(state, AgentState::Idle);
    assert_eq!(effects, vec![SideEffect::HideBubble, SideEffect::ResetIdleTimer]);
}

#[test]
fn walking_spawn_tool_keeps_walking_and_spawns() {
    let (state, effects) = transition(AgentState::Walking, AgentEvent::ToolStart("Task".into()));
    assert_eq!(state, AgentState::Walking);
    assert_eq!(
        effects,
        vec![SideEffect::RequestReturnPath, SideEffect::SpawnSubAgent("Task".into())]
    );
}

#[test]
fn waiting_spawn_tool_hides_bubble_then_spawns() {
    let (state, effects) = transition(AgentState::Waiting, AgentEvent::ToolStart("Agent".into()));
    assert_eq!(state, AgentState::Walking);
    assert_eq!(
        effects,
        vec![SideEffect::HideBubble, SideEffect::SpawnSubAgent("Agent".into())]
    );
}

#[test]
fn every_tool_family_maps_to_its_state() {
    for (tool, expected) in [
        ("Bash", AgentState::Typing),
        ("NotebookEdit", AgentState::Typing),
        ("Grep", AgentState::Reading),
        ("Glob", AgentState::Reading),
        ("WebFetch", AgentState::Reading),
        ("WebSearch", AgentState::Reading),
        ("AskUserQuestion", AgentState::Waiting),
        ("write", AgentState::Idle),
        ("", AgentState::Idle),
    ] {
        assert_eq!(pixel_agents::agent::tool_to_state(tool), expected, "tool {tool}");
    }
}

#[test]
fn init_only_moves_spawned_agents() {
    for start in [AgentState::Idle, AgentState::Typing, AgentState::Despawn] {
        let (state, effects) = transition(start, AgentEvent::Init);
        assert_eq!(state, start);
        assert!(effects.is_empty());
    }
}

#[test]
fn tool_start_from_despawn_or_spawned_has_no_effects() {
    let (state, effects) = transition(AgentState::Despawn, AgentEvent::ToolStart("Agent".into()));
    assert_eq!(state, AgentState::Walking);
    assert!(effects.is_empty());
    let (state, effects) = transition(AgentState::Spawned, AgentEvent::ToolStart("Write".into()));
    assert_eq!(state, AgentState::Typing);
    assert!(effects.is_empty());
}

#[test]
fn duration_conversions() {
    assert_eq!(Duration::from_millis(3500).as_secs(), 3);
    assert_eq!(Duration::new(1, 2_500_000_000).as_secs(), 3);
    assert!(Duration::from_secs(3).at_least(&Duration::from_millis(3000)));
    assert!(!Duration::from_millis(2999).at_least(&Duration::from_secs(3)));
}
