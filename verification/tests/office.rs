use pixel_agents::agent::{AgentEvent, AgentState, SideEffect};
use pixel_agents::grid::{Grid, Pos};
use pixel_agents::office::{
    advance_walk, claim_desk, direction_from_delta, handle_side_effect, key_action,
    pick_overflow_tile, redraw, release_desk, should_scan, spawn_walker, status_line, tick_millis,
    transcript_to_fsm, Key, KeyAction, Walker,
};
use pixel_agents::transcript::TranscriptEvent;

#[test]
fn transcript_events_map_to_fsm_events() {
    let start = TranscriptEvent::ToolStart { tool_name: "Edit".to_string(), tool_use_id: "x".to_string() };
    assert_eq!(transcript_to_fsm(&start), AgentEvent::ToolStart("Edit".to_string()));
    assert_eq!(
        transcript_to_fsm(&TranscriptEvent::ToolEnd { tool_use_id: "x".to_string() }),
        AgentEvent::ToolEnd
    );
    assert_eq!(
        transcript_to_fsm(&TranscriptEvent::PermissionPrompt { tool_use_id: "x".to_string() }),
        AgentEvent::PermissionPrompt
    );
    assert_eq!(transcript_to_fsm(&TranscriptEvent::TurnEnd), AgentEvent::ToolEnd);
}

#[test]
fn directions_from_moves() {
    let o = Pos { x: 5, y: 5 };
    assert_eq!(direction_from_delta(o, Pos { x: 5, y: 6 }), 0);
    assert_eq!(direction_from_delta(o, Pos { x: 5, y: 4 }), 1);
    assert_eq!(direction_from_delta(o, Pos { x: 6, y: 5 }), 2);
    assert_eq!(direction_from_delta(o, Pos { x: 4, y: 5 }), 3);
    // ties go vertical; no move counts as up
    assert_eq!(direction_from_delta(o, Pos { x: 6, y: 6 }), 0);
    assert_eq!(direction_from_delta(o, o), 1);
}

#[test]
fn overflow_tiles_cycle_with_ticks() {
    let grid = Grid::default_office();
    assert_eq!(pick_overflow_tile(&grid, 0), Pos { x: 12, y: 4 });
    assert_eq!(pick_overflow_tile(&grid, 9), Pos { x: 13, y: 4 });
    let mut empty = Grid::default_office();
    empty.overflow_ring.clear();
    assert_eq!(pick_overflow_tile(&empty, 5), Pos { x: 8, y: 6 });
}

#[test]
fn desks_are_claimed_in_order_and_released() {
    let mut taken = [false; 6];
    assert_eq!(claim_desk(&mut taken), Some(0));
    assert_eq!(claim_desk(&mut taken), Some(1));
    release_desk(&mut taken, Some(0));
    assert_eq!(claim_desk(&mut taken), Some(0));
    for _ in 0..4 {
        assert!(claim_desk(&mut taken).is_some());
    }
    assert_eq!(claim_desk(&mut taken), None);
    release_desk(&mut taken, Some(9));
    release_desk(&mut taken, None);
    assert_eq!(taken, [true; 6]);
}

#[test]
fn spawned_walker_heads_for_its_desk() {
    let grid = Grid::default_office();
    let w = spawn_walker(&grid, Some(4), 0);
    assert_eq!(w.state, AgentState::Walking);
    assert_eq!(w.pos, Pos { x: 8, y: 10 });
    assert_eq!(w.direction, 1);
    assert_eq!(*w.path.last().unwrap(), Pos { x: 7, y: 8 });
    assert_eq!(w.path.len(), 3);
}

#[test]
fn walker_steps_every_third_tick_then_idles() {
    let grid = Grid::default_office();
    let mut w = spawn_walker(&grid, Some(4), 0);
    let n = w.path.len();
    let mut moves = 0;
    let mut ticks = 0;
    loop {
        let step = advance_walk(&mut w);
        ticks += 1;
        if step.moved {
            moves += 1;
        }
        if step.arrived {
            break;
        }
    }
    assert_eq!(moves, n);
    assert_eq!(ticks, 3 * n);
    assert_eq!(w.state, AgentState::Idle);
    assert_eq!(w.pos, Pos { x: 7, y: 8 });
    assert!(w.path.is_empty());
    assert_eq!(w.frame, 0);
    // an idle walker does not move
    let step = advance_walk(&mut w);
    assert!(!step.moved && !step.arrived);
}

#[test]
fn side_effects_on_a_walker() {
    let grid = Grid::default_office();
    let mut w = Walker {
        state: AgentState::Idle,
        pos: Pos { x: 1, y: 1 },
        desk: Some(0),
        path: Vec::new(),
        path_index: 0,
        direction: 0,
        frame: 0,
        frame_counter: 2,
    };
    assert!(!handle_side_effect(&mut w, &SideEffect::RequestDeskPath, &grid, 0));
    assert_eq!(*w.path.last().unwrap(), Pos { x: 3, y: 4 });
    assert_eq!(w.path.len(), 5);
    assert_eq!(w.frame_counter, 0);
    assert!(handle_side_effect(&mut w, &SideEffect::ResetIdleTimer, &grid, 0));
    assert!(!handle_side_effect(&mut w, &SideEffect::RequestWanderPath, &grid, 1));
    assert_eq!(*w.path.last().unwrap(), Pos { x: 13, y: 4 });
    let before = w.path.clone();
    assert!(!handle_side_effect(&mut w, &SideEffect::ShowBubble, &grid, 0));
    assert_eq!(w.path, before);
    let mut deskless = Walker { desk: None, path: Vec::new(), ..w };
    handle_side_effect(&mut deskless, &SideEffect::RequestReturnPath, &grid, 0);
    assert!(deskless.path.is_empty());
}

#[test]
fn timing_and_keys() {
    assert_eq!(tick_millis(10), 100);
    assert_eq!(tick_millis(0), 1000);
    assert!(should_scan(20, 10));
    assert!(!should_scan(21, 10));
    assert!(should_scan(4, 0));
    assert_eq!(key_action(Key::Char('q'), false), KeyAction::Quit);
    assert_eq!(key_action(Key::Esc, false), KeyAction::Quit);
    assert_eq!(key_action(Key::Char('c'), true), KeyAction::Quit);
    assert_eq!(key_action(Key::Char('c'), false), KeyAction::Ignore);
    assert_eq!(key_action(Key::Char('r'), false), KeyAction::Refresh);
    assert_eq!(key_action(Key::Char(' '), false), KeyAction::TogglePause);
    assert_eq!(key_action(Key::Other, false), KeyAction::Ignore);
}

#[test]
fn status_line_counts_states() {
    let states = [AgentState::Typing, AgentState::Reading, AgentState::Typing, AgentState::Idle];
    let line = status_line(&states, 10, false);
    assert_eq!(
        String::from_utf8(line).unwrap(),
        "\x1b[2K agents: 4 | typing: 2 | reading: 1 | waiting: 0 | fps: 10"
    );
    let line = status_line(&[], 15, true);
    assert_eq!(
        String::from_utf8(line).unwrap(),
        "\x1b[2K agents: 0 | typing: 0 | reading: 0 | waiting: 0 | fps: 15 [PAUSED]"
    );
}

#[test]
fn drawing_decisions() {
    // a change draws the next generation
    let r = redraw(false, true, false, 4, 4);
    assert_eq!((r.render, r.generation, r.last_rendered), (true, 5, 5));
    // nothing new: no drawing
    let r = redraw(false, false, false, 5, 5);
    assert_eq!((r.render, r.generation, r.last_rendered), (false, 5, 5));
    // paused: changes are ignored, a forced redraw draws
    let r = redraw(true, true, false, 5, 5);
    assert_eq!((r.render, r.generation, r.last_rendered), (false, 5, 5));
    let r = redraw(true, false, true, 5, 5);
    assert_eq!((r.render, r.generation, r.last_rendered), (true, 6, 6));
    // a generation not yet drawn is drawn
    let r = redraw(false, false, false, 7, 5);
    assert_eq!((r.render, r.generation, r.last_rendered), (true, 7, 7));
}

#[test]
fn status_line_counts_large_numbers() {
    let states = vec![AgentState::Typing; 1234];
    let line = String::from_utf8(status_line(&states, 4_000_000_000, true)).unwrap();
    assert_eq!(
        line,
        "\x1b[2K agents: 1234 | typing: 1234 | reading: 0 | waiting: 0 | fps: 4000000000 [PAUSED]"
    );
}
