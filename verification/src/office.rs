//! The decisions of the office loop: desks, walking, side effects, keys,
//! timing and the status line. The host performs I/O and keeps the clock.
use vstd::prelude::*;
use crate::agent::{
    AgentEvent, AgentState, Duration, EffectView, EventView, SideEffect, NANOS_PER_SEC,
};
use crate::grid::{
    in_bounds, is_shortest_path, pathfind, reachable, Grid, Pos, GRID_HEIGHT, GRID_WIDTH,
};
use crate::renderer::{decimal, push_all, push_decimal};
use crate::path_order::is_first_shortest_path;
use crate::transcript::{EventRecord, TranscriptEvent};
use vstd::string::StringSliceAdditionalSpecFns;

verus! {

/// Ticks between two steps of a walking agent.
pub const WALK_SPEED_TICKS: u32 = 3;

/// Where agents enter: just inside the door, bottom centre.
pub open spec fn spawn_pos() -> Pos {
    Pos { x: 8, y: 10 }
}

/// Where an agent without a desk goes when the office has no ring around the cooler.
pub open spec fn fallback_pos() -> Pos {
    Pos { x: 8, y: 6 }
}

/// Number of desks.
pub const NUM_DESKS: usize = 6;

// ---------------------------------------------------------------------------
// Events and directions
// ---------------------------------------------------------------------------

/// The state-machine event of a transcript event; the end of a turn counts as
/// the end of a tool.
pub open spec fn fsm_event_of(e: EventRecord) -> EventView {
    match e {
        EventRecord::ToolStart { tool_name, .. } => EventView::ToolStart(tool_name),
        EventRecord::ToolEnd { .. } => EventView::ToolEnd,
        EventRecord::PermissionPrompt { .. } => EventView::PermissionPrompt,
        EventRecord::TurnEnd => EventView::ToolEnd,
    }
}

/// Maps a transcript event to the state machine's event.
pub fn transcript_to_fsm(evt: &TranscriptEvent) -> (e: AgentEvent)
    ensures
        e@ == fsm_event_of(evt@),
{
    match evt {
        TranscriptEvent::ToolStart { tool_name, .. } => AgentEvent::ToolStart(tool_name.clone()),
        TranscriptEvent::ToolEnd { .. } => AgentEvent::ToolEnd,
        TranscriptEvent::PermissionPrompt { .. } => AgentEvent::PermissionPrompt,
        TranscriptEvent::TurnEnd => AgentEvent::ToolEnd,
    }
}

pub open spec fn abs(v: int) -> int {
    if v < 0 {
        -v
    } else {
        v
    }
}

/// The difference `b - a` of two coordinates taken as `i32`.
pub open spec fn delta(a: usize, b: usize) -> int {
    (b as i32) - (a as i32)
}

/// The differences of two positions' coordinates, taken as `i32`, are `i32`
/// values other than `i32::MIN` (so that their absolute values are too).
pub open spec fn step_fits(from: Pos, to: Pos) -> bool {
    &&& i32::MIN < delta(from.x, to.x) <= i32::MAX
    &&& i32::MIN < delta(from.y, to.y) <= i32::MAX
}

/// The way an agent faces after moving from `from` to `to`: 0 down, 1 up,
/// 2 right, 3 left; a vertical move wins a tie (coordinates taken as `i32`).
pub open spec fn facing(from: Pos, to: Pos) -> u8 {
    let dx = delta(from.x, to.x);
    let dy = delta(from.y, to.y);
    if abs(dy) >= abs(dx) {
        if dy > 0 {
            0
        } else {
            1
        }
    } else if dx > 0 {
        2
    } else {
        3
    }
}

/// The direction faced after a move from `from` to `to`.
pub fn direction_from_delta(from: Pos, to: Pos) -> (d: u8)
    requires
        step_fits(from, to),
    ensures
        d == facing(from, to),
{
    let dx = to.x as i32 - from.x as i32;
    let dy = to.y as i32 - from.y as i32;
    let adx = if dx < 0 {
        -dx
    } else {
        dx
    };
    let ady = if dy < 0 {
        -dy
    } else {
        dy
    };
    if ady >= adx {
        if dy > 0 {
            0
        } else {
            1
        }
    } else if dx > 0 {
        2
    } else {
        3
    }
}

/// The ring tile an agent without a desk heads for at tick `tick`: ring tiles
/// taken in turn, or the office centre when there is no ring.
pub open spec fn overflow_tile(ring: Seq<Pos>, tick: u64) -> Pos {
    if ring.len() == 0 {
        fallback_pos()
    } else {
        ring[((tick as usize) as int) % (ring.len() as int)]
    }
}

/// Picks a tile of the ring around the water cooler by tick.
pub fn pick_overflow_tile(grid: &Grid, tick: u64) -> (p: Pos)
    ensures
        p == overflow_tile(grid.overflow_ring@, tick),
{
    if grid.overflow_ring.len() == 0 {
        return Pos { x: 8, y: 6 };
    }
    let idx = (tick as usize) % grid.overflow_ring.len();
    grid.overflow_ring[idx]
}

// ---------------------------------------------------------------------------
// Walking agents
// ---------------------------------------------------------------------------

/// Where an agent is and where it is going: its state, tile, desk, the path it
/// follows and how far along it is, the way it faces, its animation frame and
/// the ticks since its last step.
pub struct Walker {
    pub state: AgentState,
    pub pos: Pos,
    pub desk: Option<usize>,
    pub path: Vec<Pos>,
    pub path_index: usize,
    pub direction: u8,
    pub frame: u32,
    pub frame_counter: u32,
}

/// A walker that `grid` can host: it stands inside the office, its desk is one of
/// the office's, and every tile of its path is inside the office.
pub open spec fn walker_fits(w: Walker, grid: Grid) -> bool {
    &&& in_bounds(w.pos)
    &&& (w.desk matches Some(i) ==> i < grid.desk_positions@.len())
    &&& forall|i: int| 0 <= i < w.path@.len() ==> in_bounds(#[trigger] w.path@[i])
    &&& forall|i: int| 0 <= i < grid.desk_positions@.len() ==> in_bounds(
        #[trigger] grid.desk_positions@[i],
    )
}

/// The outcome of asking for a path from the walker's tile to `target`: the
/// walker follows, from its start, the path that the search finds (the first
/// shortest path) when there is one, and keeps its old path otherwise.
pub open spec fn took_path_to(before: Walker, after: Walker, grid: Grid, target: Pos) -> bool {
    &&& after.state == before.state
    &&& after.pos == before.pos
    &&& after.desk == before.desk
    &&& after.direction == before.direction
    &&& after.frame == before.frame
    &&& if reachable(grid.tiles, before.pos, target) {
        &&& is_first_shortest_path(grid.tiles, before.pos, target, after.path@)
        &&& after.path_index == 0
        &&& after.frame_counter == 0
    } else {
        &&& after.path@ == before.path@
        &&& after.path_index == before.path_index
        &&& after.frame_counter == before.frame_counter
    }
}

/// Nothing about the walker changed.
pub open spec fn unchanged(before: Walker, after: Walker) -> bool {
    &&& after.state == before.state
    &&& after.pos == before.pos
    &&& after.desk == before.desk
    &&& after.path@ == before.path@
    &&& after.path_index == before.path_index
    &&& after.direction == before.direction
    &&& after.frame == before.frame
    &&& after.frame_counter == before.frame_counter
}

/// Lemma: every tile of a path found in the office lies inside it.
pub proof fn lemma_path_in_bounds(grid: Grid, from: Pos, to: Pos, path: Seq<Pos>)
    requires
        is_shortest_path(grid.tiles, from, to, path),
    ensures
        forall|i: int| 0 <= i < path.len() ==> in_bounds(#[trigger] path[i]),
{
    assert forall|i: int| 0 <= i < path.len() implies in_bounds(#[trigger] path[i]) by {
        assert(crate::grid::passable(grid.tiles, path[i]));
    }
}

/// Asks for a path from the walker's tile to `target`.
fn request_path(w: &mut Walker, grid: &Grid, target: Pos)
    requires
        old(w).pos == target || in_bounds(old(w).pos),
    ensures
        walker_fits(*old(w), *grid) ==> walker_fits(*final(w), *grid),
        took_path_to(*old(w), *final(w), *grid, target),
{
    match pathfind(grid, w.pos, target) {
        Some(path) => {
            proof {
                lemma_path_in_bounds(*grid, w.pos, target, path@);
            }
            w.path = path;
            w.path_index = 0;
            w.frame_counter = 0;
        },
        None => {},
    }
}

/// What an effect needs of the walker: a desk or return path needs the walker's
/// desk (if any) to be one of the office's, and a path search needs the walker
/// inside the office unless it already stands on the target.
pub open spec fn effect_can_run(w: Walker, effect: SideEffect, grid: Grid, tick_count: u64) -> bool {
    match effect {
        SideEffect::RequestDeskPath | SideEffect::RequestReturnPath => match w.desk {
            Some(i) => i < grid.desk_positions@.len() && (w.pos == grid.desk_positions@[i as int]
                || in_bounds(w.pos)),
            None => true,
        },
        SideEffect::RequestWanderPath => w.pos == overflow_tile(grid.overflow_ring@, tick_count)
            || in_bounds(w.pos),
        _ => true,
    }
}

/// What carrying out effect `e` did to a walker: a desk or return path leads
/// to the walker's desk (when it has one), a wander path to the ring tile of
/// this tick; every other effect leaves the walker as it is.
pub open spec fn effect_done(before: Walker, after: Walker, e: EffectView, grid: Grid, tick_count: u64) -> bool {
    match e {
        EffectView::RequestDeskPath | EffectView::RequestReturnPath => match before.desk {
            Some(i) => took_path_to(before, after, grid, grid.desk_positions@[i as int]),
            None => unchanged(before, after),
        },
        EffectView::RequestWanderPath => took_path_to(
            before,
            after,
            grid,
            overflow_tile(grid.overflow_ring@, tick_count),
        ),
        _ => unchanged(before, after),
    }
}

/// Carries out one side effect of the state machine on a walker: a desk or
/// return path leads to the walker's desk (when it has one), a wander path to
/// the ring tile of this tick; every other effect leaves the walker as it is.
/// Returns whether the idle timer is to be reset.
pub fn handle_side_effect(w: &mut Walker, effect: &SideEffect, grid: &Grid, tick_count: u64) -> (reset_idle: bool)
    requires
        effect_can_run(*old(w), *effect, *grid, tick_count),
    ensures
        walker_fits(*old(w), *grid) ==> walker_fits(*final(w), *grid),
        reset_idle == (*effect is ResetIdleTimer),
        effect_done(*old(w), *final(w), effect@, *grid, tick_count),
{
    match effect {
        SideEffect::RequestDeskPath | SideEffect::RequestReturnPath => {
            match w.desk {
                Some(desk_idx) => {
                    let target = grid.desk_positions[desk_idx];
                    request_path(w, grid, target);
                },
                None => {},
            }
            false
        },
        SideEffect::RequestWanderPath => {
            let target = pick_overflow_tile(grid, tick_count);
            request_path(w, grid, target);
            false
        },
        SideEffect::ResetIdleTimer => true,
        // freeing the seat happens when the agent is removed; fading, bubbles
        // and sub-agents are not drawn
        _ => false,
    }
}

/// What one tick of walking did.
#[derive(Debug, Clone, Copy, PartialEq, Eq, Structural)]
pub struct WalkStep {
    /// The walker stepped to the next tile of its path.
    pub moved: bool,
    /// The walker reached the end of its path and is now idle.
    pub arrived: bool,
}

/// One tick of walking from `b` to `a`, reported as `step`; see `advance_walk`.
pub open spec fn walk_advanced(b: Walker, a: Walker, step: WalkStep) -> bool {
    if !(b.state == AgentState::Walking && b.path@.len() > 0) {
        unchanged(b, a) && !step.moved && !step.arrived
    } else if b.frame_counter + 1 < WALK_SPEED_TICKS {
        &&& a.frame_counter == b.frame_counter + 1
        &&& a.state == b.state && a.pos == b.pos && a.path@ == b.path@
        &&& a.path_index == b.path_index && a.direction == b.direction && a.frame == b.frame
        &&& !step.moved && !step.arrived
    } else {
        let moves = b.path_index < b.path@.len();
        let index = if moves {
            b.path_index + 1
        } else {
            b.path_index as int
        };
        let pos = if moves {
            b.path@[b.path_index as int]
        } else {
            b.pos
        };
        let arrives = index >= b.path@.len();
        &&& a.frame_counter == 0
        &&& a.pos == pos
        &&& a.direction == if moves {
            facing(b.pos, pos)
        } else {
            b.direction
        }
        &&& step.moved == moves
        &&& step.arrived == arrives
        &&& if arrives {
            &&& a.state == AgentState::Idle
            &&& a.path@.len() == 0
            &&& a.path_index == 0
            &&& a.frame == 0
        } else {
            &&& a.state == b.state
            &&& a.path@ == b.path@
            &&& a.path_index == index
            &&& a.frame == (if moves {
                ((b.frame + 1) % 3) as u32
            } else {
                b.frame
            })
        }
    }
}

/// One tick of walking: a walking agent with a path steps every
/// `WALK_SPEED_TICKS` ticks to the next tile of its path (facing the way it
/// moves, advancing its frame among 0, 1, 2), and goes idle (frame 0, path
/// cleared) once the path is used up. Other agents do not move.
pub fn advance_walk(w: &mut Walker) -> (step: WalkStep)
    requires
        old(w).state == AgentState::Walking && old(w).path@.len() > 0 ==> old(w).frame_counter
            < u32::MAX,
        old(w).state == AgentState::Walking && old(w).path@.len() > 0 && old(w).frame_counter + 1
            >= WALK_SPEED_TICKS && old(w).path_index < old(w).path@.len() ==> old(w).frame < u32::MAX
            && step_fits(old(w).pos, old(w).path@[old(w).path_index as int]),
    ensures
        in_bounds(old(w).pos) && (forall|i: int|
            0 <= i < old(w).path@.len() ==> in_bounds(#[trigger] old(w).path@[i])) ==> in_bounds(
            final(w).pos,
        ) && (forall|i: int|
            0 <= i < final(w).path@.len() ==> in_bounds(#[trigger] final(w).path@[i])),
        final(w).desk == old(w).desk,
        walk_advanced(*old(w), *final(w), step),
{
    let mut step = WalkStep { moved: false, arrived: false };
    if w.state == AgentState::Walking && w.path.len() > 0 {
        w.frame_counter = w.frame_counter + 1;
        if w.frame_counter >= WALK_SPEED_TICKS {
            w.frame_counter = 0;
            if w.path_index < w.path.len() {
                let next = w.path[w.path_index];
                w.direction = direction_from_delta(w.pos, next);
                w.pos = next;
                w.path_index = w.path_index + 1;
                w.frame = (w.frame + 1) % 3;
                step.moved = true;
            }
            // path used up: go idle
            if w.path_index >= w.path.len() {
                w.path.clear();
                w.path_index = 0;
                w.state = AgentState::Idle;
                w.frame = 0;
                step.arrived = true;
            }
        }
    }
    step
}

// ---------------------------------------------------------------------------
// Desks and arrivals
// ---------------------------------------------------------------------------

/// The first free desk, if any.
pub open spec fn first_free(taken: Seq<bool>) -> Option<usize>
    decreases taken.len(),
{
    if taken.len() == 0 {
        None
    } else {
        match first_free(taken.drop_last()) {
            Some(i) => Some(i),
            None => if !taken.last() {
                Some((taken.len() - 1) as usize)
            } else {
                None
            },
        }
    }
}

/// Takes the first free desk and marks it taken; `None` when all are taken.
pub fn claim_desk(desk_taken: &mut [bool; NUM_DESKS]) -> (desk: Option<usize>)
    ensures
        desk == first_free(old(desk_taken)@),
        match desk {
            Some(i) => i < NUM_DESKS && final(desk_taken)@ == old(desk_taken)@.update(i as int, true),
            None => final(desk_taken)@ == old(desk_taken)@,
        },
{
    let mut i: usize = 0;
    while i < NUM_DESKS
        invariant
            i <= NUM_DESKS,
            desk_taken@ == old(desk_taken)@,
            first_free(desk_taken@.take(i as int)) is None,
        decreases NUM_DESKS - i,
    {
        proof {
            assert(desk_taken@.take(i + 1).drop_last() =~= desk_taken@.take(i as int));
        }
        if !desk_taken[i] {
            proof {
                lemma_first_free_prefix(desk_taken@, i as int);
            }
            desk_taken[i] = true;
            return Some(i);
        }
        i = i + 1;
    }
    assert(desk_taken@.take(NUM_DESKS as int) =~= desk_taken@);
    None
}

/// The first free desk found in a prefix is the first free desk.
proof fn lemma_first_free_prefix(taken: Seq<bool>, i: int)
    requires
        0 <= i < taken.len(),
        first_free(taken.take(i)) is None,
        !taken[i],
    ensures
        first_free(taken) == Some(i as usize),
    decreases taken.len(),
{
    if i == taken.len() - 1 {
        assert(taken.drop_last() =~= taken.take(i));
    } else {
        assert(taken.drop_last().take(i) =~= taken.take(i));
        lemma_first_free_prefix(taken.drop_last(), i);
    }
}

/// Frees the desk of a leaving agent.
pub fn release_desk(desk_taken: &mut [bool; NUM_DESKS], desk: Option<usize>)
    ensures
        match desk {
            Some(i) => if i < NUM_DESKS {
                final(desk_taken)@ == old(desk_taken)@.update(i as int, false)
            } else {
                final(desk_taken)@ == old(desk_taken)@
            },
            None => final(desk_taken)@ == old(desk_taken)@,
        },
{
    if let Some(i) = desk {
        if i < NUM_DESKS {
            desk_taken[i] = false;
        }
    }
}

/// Where a new agent heads: its desk's seat, or the ring tile of this tick.
pub open spec fn arrival_target(grid: Grid, desk: Option<usize>, tick: u64) -> Pos {
    match desk {
        Some(i) => grid.desk_positions@[i as int],
        None => overflow_tile(grid.overflow_ring@, tick),
    }
}

/// A walker just arrived at the door: walking (facing up, frame 0) with desk
/// `desk`, along the path the search finds to its target, or with no path when
/// the target cannot be reached.
pub open spec fn is_new_walker(w: Walker, grid: Grid, desk: Option<usize>, tick_count: u64) -> bool {
    &&& w.state == AgentState::Walking
    &&& w.pos == spawn_pos()
    &&& w.desk == desk
    &&& w.path_index == 0
    &&& w.direction == 1
    &&& w.frame == 0
    &&& w.frame_counter == 0
    &&& if reachable(grid.tiles, spawn_pos(), arrival_target(grid, desk, tick_count)) {
        is_first_shortest_path(
            grid.tiles,
            spawn_pos(),
            arrival_target(grid, desk, tick_count),
            w.path@,
        )
    } else {
        w.path@.len() == 0
    }
}

/// A new agent at the door, walking (facing up) along the path the search finds
/// to its target (the first shortest path), or standing there with no path when
/// the target cannot be reached.
pub fn spawn_walker(grid: &Grid, desk: Option<usize>, tick_count: u64) -> (w: Walker)
    requires
        desk matches Some(i) ==> i < grid.desk_positions@.len(),
    ensures
        is_new_walker(w, *grid, desk, tick_count),
{
    let target = match desk {
        Some(idx) => grid.desk_positions[idx],
        None => pick_overflow_tile(grid, tick_count),
    };
    let spawn = Pos { x: 8, y: 10 };
    let path = match pathfind(grid, spawn, target) {
        Some(p) => p,
        None => Vec::new(),
    };
    Walker {
        state: AgentState::Walking,
        pos: spawn,
        desk,
        path,
        path_index: 0,
        direction: 1,
        frame: 0,
        frame_counter: 0,
    }
}

// ---------------------------------------------------------------------------
// Timing, keys, status
// ---------------------------------------------------------------------------

/// Seconds without any event after which an agent despawns.
pub const DESPAWN_TIMEOUT_SECS: u64 = 60;

/// Seconds an idle agent waits before it wanders.
pub const IDLE_WANDER_SECS: u64 = 3;

/// The timer events for an agent that has had no event for `inactive_for` and
/// has been idle (in `state`) for `idle_for`, in the order they are applied:
/// a despawn timeout once a minute has passed; otherwise, for an idle agent
/// after three seconds, a tick of three seconds; else none.
pub open spec fn timer_events_of(state: AgentState, idle_for: nat, inactive_for: nat) -> Seq<
    EventView,
> {
    if inactive_for >= DESPAWN_TIMEOUT_SECS * NANOS_PER_SEC {
        seq![EventView::DespawnTimeout]
    } else if state == AgentState::Idle && idle_for >= IDLE_WANDER_SECS * NANOS_PER_SEC {
        seq![EventView::Tick((IDLE_WANDER_SECS * NANOS_PER_SEC) as nat)]
    } else {
        seq![]
    }
}

/// The events of an agent's timers; see `timer_events_of`.
pub fn timer_events(state: AgentState, idle_for: &Duration, inactive_for: &Duration) -> (events:
    Vec<AgentEvent>)
    ensures
        events@.map_values(|e: AgentEvent| e@) == timer_events_of(
            state,
            idle_for.total_nanos(),
            inactive_for.total_nanos(),
        ),
{
    let mut events: Vec<AgentEvent> = Vec::new();
    if inactive_for.at_least(&Duration::from_secs(DESPAWN_TIMEOUT_SECS)) {
        events.push(AgentEvent::DespawnTimeout);
    } else if state == AgentState::Idle && idle_for.at_least(&Duration::from_secs(IDLE_WANDER_SECS)) {
        events.push(AgentEvent::Tick(Duration::from_secs(IDLE_WANDER_SECS)));
    }
    assert(events@.map_values(|e: AgentEvent| e@) =~= timer_events_of(
        state,
        idle_for.total_nanos(),
        inactive_for.total_nanos(),
    ));
    events
}

/// What one tick decides about drawing: whether to draw, and the new
/// generation and last drawn generation.
#[derive(Debug, Clone, Copy, PartialEq, Eq, Structural)]
pub struct Redraw {
    pub render: bool,
    pub generation: u64,
    pub last_rendered: u64,
}

/// Whether a tick bumps the generation: when paused only a forced redraw does;
/// otherwise a change or a forced redraw.
pub open spec fn bumps(paused: bool, changed: bool, force_render: bool) -> bool {
    if paused {
        force_render
    } else {
        changed || force_render
    }
}

/// The drawing decision of a tick: the generation goes up by one when the tick
/// bumps it; the scene is drawn when the generation is ahead of the last drawn
/// one (or, while paused, when a redraw is forced), and then the last drawn
/// generation catches up.
pub open spec fn redraw_of(
    paused: bool,
    changed: bool,
    force_render: bool,
    generation: u64,
    last_rendered: u64,
) -> (bool, int, int) {
    let g = if bumps(paused, changed, force_render) {
        generation + 1
    } else {
        generation as int
    };
    let render = g > last_rendered || (paused && force_render);
    (render, g, if render {
        g
    } else {
        last_rendered as int
    })
}

/// Decides whether this tick draws the scene; see `redraw_of`.
pub fn redraw(paused: bool, changed: bool, force_render: bool, generation: u64, last_rendered: u64) -> (r: Redraw)
    requires
        bumps(paused, changed, force_render) ==> generation < u64::MAX,
    ensures
        r.render == redraw_of(paused, changed, force_render, generation, last_rendered).0,
        r.generation == redraw_of(paused, changed, force_render, generation, last_rendered).1,
        r.last_rendered == redraw_of(paused, changed, force_render, generation, last_rendered).2,
{
    let bump = if paused {
        force_render
    } else {
        changed || force_render
    };
    let g = if bump {
        generation + 1
    } else {
        generation
    };
    let render = g > last_rendered || (paused && force_render);
    Redraw { render, generation: g, last_rendered: if render {
        g
    } else {
        last_rendered
    } }
}

/// The frame rate actually used: at least 1.
pub open spec fn effective_fps(fps: u32) -> nat {
    if fps == 0 {
        1
    } else {
        fps as nat
    }
}

/// Milliseconds between ticks: 1000 / fps.
pub fn tick_millis(fps: u32) -> (ms: u64)
    ensures
        ms == 1000nat / effective_fps(fps),
{
    let f = if fps < 1 {
        1
    } else {
        fps
    };
    1000 / (f as u64)
}

/// Whether this tick looks for new transcripts: every two seconds' worth of ticks.
pub fn should_scan(tick_count: u64, fps: u32) -> (scan: bool)
    ensures
        scan == ((tick_count as nat) % (2 * effective_fps(fps)) == 0),
{
    let f = if fps < 1 {
        1
    } else {
        fps
    };
    tick_count % ((f as u64) * 2) == 0
}

/// A key press, as far as the office cares.
#[derive(Debug, Clone, Copy, PartialEq, Eq, Structural)]
pub enum Key {
    Char(char),
    Esc,
    Other,
}

/// What a key press asks for.
#[derive(Debug, Clone, Copy, PartialEq, Eq, Structural)]
pub enum KeyAction {
    Quit,
    Refresh,
    TogglePause,
    Ignore,
}

/// `q`, `Esc` and Ctrl+C quit; `r` redraws; space pauses or resumes.
pub open spec fn key_meaning(key: Key, ctrl: bool) -> KeyAction {
    if ctrl && key == Key::Char('c') {
        KeyAction::Quit
    } else {
        match key {
            Key::Char('q') | Key::Esc => KeyAction::Quit,
            Key::Char('r') => KeyAction::Refresh,
            Key::Char(' ') => KeyAction::TogglePause,
            _ => KeyAction::Ignore,
        }
    }
}

/// The action for a key press.
pub fn key_action(key: Key, ctrl: bool) -> (a: KeyAction)
    ensures
        a == key_meaning(key, ctrl),
{
    if ctrl && key == Key::Char('c') {
        return KeyAction::Quit;
    }
    match key {
        Key::Char('q') | Key::Esc => KeyAction::Quit,
        Key::Char('r') => KeyAction::Refresh,
        Key::Char(' ') => KeyAction::TogglePause,
        _ => KeyAction::Ignore,
    }
}

/// How many of the agents are in state `s`.
pub open spec fn count_state(states: Seq<AgentState>, s: AgentState) -> nat
    decreases states.len(),
{
    if states.len() == 0 {
        0
    } else {
        count_state(states.drop_last(), s) + if states.last() == s {
            1nat
        } else {
            0
        }
    }
}

pub proof fn lemma_count_state_bound(states: Seq<AgentState>, s: AgentState)
    ensures
        count_state(states, s) <= states.len(),
    decreases states.len(),
{
    if states.len() > 0 {
        lemma_count_state_bound(states.drop_last(), s);
    }
}

/// Counts the agents in state `s`.
pub fn count_in_state(states: &[AgentState], s: AgentState) -> (n: usize)
    ensures
        n == count_state(states@, s),
{
    let mut n: usize = 0;
    let mut i: usize = 0;
    while i < states.len()
        invariant
            i <= states@.len(),
            n == count_state(states@.take(i as int), s),
        decreases states@.len() - i,
    {
        proof {
            assert(states@.take(i + 1).drop_last() =~= states@.take(i as int));
            lemma_count_state_bound(states@.take(i as int), s);
        }
        if states[i] == s {
            n = n + 1;
        }
        i = i + 1;
    }
    assert(states@.take(states@.len() as int) =~= states@);
    n
}

/// The status line under the picture: erase the line, then
/// ` agents: T | typing: N | reading: N | waiting: N | fps: F`, and ` [PAUSED]`
/// when paused.
pub open spec fn status_text(
    total: nat,
    typing: nat,
    reading: nat,
    waiting: nat,
    fps: nat,
    paused: bool,
) -> Seq<u8> {
    "\x1b[2K agents: ".spec_bytes() + decimal(total) + " | typing: ".spec_bytes() + decimal(
        typing,
    ) + " | reading: ".spec_bytes() + decimal(reading) + " | waiting: ".spec_bytes() + decimal(
        waiting,
    ) + " | fps: ".spec_bytes() + decimal(fps) + if paused {
        " [PAUSED]".spec_bytes()
    } else {
        seq![]
    }
}

/// The status line for the given agents.
pub fn status_line(states: &[AgentState], fps: u32, paused: bool) -> (line: Vec<u8>)
    ensures
        line@ == status_text(
            states@.len(),
            count_state(states@, AgentState::Typing),
            count_state(states@, AgentState::Reading),
            count_state(states@, AgentState::Waiting),
            fps as nat,
            paused,
        ),
{
    let total = states.len();
    let typing = count_in_state(states, AgentState::Typing);
    let reading = count_in_state(states, AgentState::Reading);
    let waiting = count_in_state(states, AgentState::Waiting);
    proof {
        lemma_count_state_bound(states@, AgentState::Typing);
        lemma_count_state_bound(states@, AgentState::Reading);
        lemma_count_state_bound(states@, AgentState::Waiting);
    }
    let mut line: Vec<u8> = Vec::new();
    push_all(&mut line, "\x1b[2K agents: ".as_bytes());
    push_decimal(&mut line, total as u64);
    push_all(&mut line, " | typing: ".as_bytes());
    push_decimal(&mut line, typing as u64);
    push_all(&mut line, " | reading: ".as_bytes());
    push_decimal(&mut line, reading as u64);
    push_all(&mut line, " | waiting: ".as_bytes());
    push_decimal(&mut line, waiting as u64);
    push_all(&mut line, " | fps: ".as_bytes());
    push_decimal(&mut line, fps as u64);
    if paused {
        push_all(&mut line, " [PAUSED]".as_bytes());
    }
    assert(line@ =~= status_text(
        total as nat,
        typing as nat,
        reading as nat,
        waiting as nat,
        fps as nat,
        paused,
    ));
    line
}

// ---------------------------------------------------------------------------
// Laws of the desks
// ---------------------------------------------------------------------------

/// The desk handed out is the lowest free one; none is handed out only when
/// all are taken.
pub proof fn law_first_free_is_lowest(taken: Seq<bool>)
    requires
        taken.len() <= usize::MAX,
    ensures
        match first_free(taken) {
            Some(i) => 0 <= i < taken.len() && !taken[i as int] && forall|j: int|
                0 <= j < i ==> #[trigger] taken[j],
            None => forall|j: int| 0 <= j < taken.len() ==> #[trigger] taken[j],
        },
    decreases taken.len(),
{
    if taken.len() > 0 {
        let rest = taken.drop_last();
        law_first_free_is_lowest(rest);
        match first_free(rest) {
            Some(i) => {
                assert(first_free(taken) == Some(i));
                assert(rest[i as int] == taken[i as int]);
                assert forall|j: int| 0 <= j < i implies #[trigger] taken[j] by {
                    assert(rest[j] == taken[j]);
                }
            },
            None => {
                assert forall|j: int| 0 <= j < taken.len() - 1 implies #[trigger] taken[j] by {
                    assert(rest[j] == taken[j]);
                }
                if !taken.last() {
                    assert(first_free(taken) == Some((taken.len() - 1) as usize));
                } else {
                    assert(first_free(taken) is None);
                }
            },
        }
    }
}

/// Releasing the desk just claimed gives back the table of desks as it was.
pub proof fn law_claim_then_release(taken: Seq<bool>)
    requires
        taken.len() <= usize::MAX,
    ensures
        first_free(taken) matches Some(i) ==> taken.update(i as int, true).update(i as int, false)
            == taken,
{
    law_first_free_is_lowest(taken);
    if let Some(i) = first_free(taken) {
        assert(taken.update(i as int, true).update(i as int, false) =~= taken);
    }
}


// ---------------------------------------------------------------------------
// Laws of walking
// ---------------------------------------------------------------------------

/// A walker that steps moves to the next tile of its path and faces the way it
/// stepped: up (1) onto the row above, down (0) onto the row below, right (2)
/// onto the next column, left (3) onto the previous one.
pub proof fn law_step_faces_the_move(b: Walker, a: Walker, step: WalkStep)
    requires
        walk_advanced(b, a, step),
        step.moved,
        in_bounds(b.pos),
        in_bounds(a.pos),
    ensures
        a.pos == b.path@[b.path_index as int],
        a.pos.x == b.pos.x && a.pos.y + 1 == b.pos.y ==> a.direction == 1,
        a.pos.x == b.pos.x && a.pos.y == b.pos.y + 1 ==> a.direction == 0,
        a.pos.y == b.pos.y && a.pos.x == b.pos.x + 1 ==> a.direction == 2,
        a.pos.y == b.pos.y && a.pos.x + 1 == b.pos.x ==> a.direction == 3,
{
}

/// A path request sends the walker, from where it stands, along the first
/// shortest path to the request's target when there is one: its own seat for
/// a desk or return path (when it has a desk), the ring tile of this tick for
/// a wander path. Any other effect leaves its path and place alone.
pub proof fn law_path_requests_lead_to_target(
    b: Walker,
    a: Walker,
    e: EffectView,
    grid: Grid,
    tick_count: u64,
)
    requires
        effect_done(b, a, e, grid, tick_count),
    ensures
        ((e == EffectView::RequestDeskPath || e == EffectView::RequestReturnPath) && b.desk is Some
            && reachable(grid.tiles, b.pos, grid.desk_positions@[b.desk->0 as int])) ==> {
            &&& is_first_shortest_path(
                grid.tiles,
                b.pos,
                grid.desk_positions@[b.desk->0 as int],
                a.path@,
            )
            &&& a.path_index == 0
            &&& a.frame_counter == 0
            &&& a.pos == b.pos
            &&& a.state == b.state
        },
        (e == EffectView::RequestWanderPath && reachable(
            grid.tiles,
            b.pos,
            overflow_tile(grid.overflow_ring@, tick_count),
        )) ==> {
            &&& is_first_shortest_path(
                grid.tiles,
                b.pos,
                overflow_tile(grid.overflow_ring@, tick_count),
                a.path@,
            )
            &&& a.path_index == 0
            &&& a.frame_counter == 0
            &&& a.pos == b.pos
            &&& a.state == b.state
        },
        !(e == EffectView::RequestDeskPath || e == EffectView::RequestReturnPath || e
            == EffectView::RequestWanderPath) ==> a.path@ == b.path@ && a.pos == b.pos && a.state
            == b.state && a.path_index == b.path_index,
        a.desk == b.desk,
{
}

} // verus!
