//! Agent state machine: `transition(state, event) -> (state, side effects)`.
use vstd::prelude::*;
use crate::text::str_eq;

verus! {

/// What an agent is doing.
#[derive(Debug, Clone, Copy, PartialEq, Eq, Structural)]
pub enum AgentState {
    Spawned,
    Walking,
    Typing,
    Reading,
    Idle,
    Waiting,
    Despawn,
}

/// A span of elapsed time, held as whole seconds and the nanoseconds beyond them.
#[derive(Debug, Clone, Copy, PartialEq, Eq)]
pub struct Duration {
    secs: u64,
    nanos: u32,
}

/// Nanoseconds in one second.
pub const NANOS_PER_SEC: u32 = 1_000_000_000;

impl Duration {
    #[verifier::type_invariant]
    spec fn nanos_below_one_second(self) -> bool {
        self.nanos < NANOS_PER_SEC
    }

    /// The whole length in nanoseconds.
    pub closed spec fn total_nanos(self) -> nat {
        (self.secs * NANOS_PER_SEC + self.nanos) as nat
    }

    /// A duration of `secs` seconds.
    pub fn from_secs(secs: u64) -> (d: Duration)
        ensures
            d.total_nanos() == secs * NANOS_PER_SEC,
    {
        Duration { secs, nanos: 0 }
    }

    /// A duration of `millis` milliseconds.
    pub fn from_millis(millis: u64) -> (d: Duration)
        ensures
            d.total_nanos() == millis * 1_000_000,
    {
        let secs = millis / 1000;
        let rest = millis % 1000;
        let nanos = (rest as u32) * 1_000_000;
        assert(secs * NANOS_PER_SEC + nanos == millis * 1_000_000) by (nonlinear_arith)
            requires
                secs == millis / 1000,
                rest == millis % 1000,
                nanos == rest * 1_000_000,
        ;
        Duration { secs, nanos }
    }

    /// A duration of `secs` seconds and `nanos` nanoseconds; whole seconds in
    /// `nanos` carry over into the seconds.
    pub fn new(secs: u64, nanos: u32) -> (d: Duration)
        requires
            secs + nanos / NANOS_PER_SEC <= u64::MAX,
        ensures
            d.total_nanos() == secs * NANOS_PER_SEC + nanos,
    {
        let carry = (nanos / NANOS_PER_SEC) as u64;
        let rest = nanos % NANOS_PER_SEC;
        assert((secs + carry) * NANOS_PER_SEC + rest == secs * NANOS_PER_SEC + nanos)
            by (nonlinear_arith)
            requires
                carry == nanos / NANOS_PER_SEC,
                rest == nanos % NANOS_PER_SEC,
        ;
        Duration { secs: secs + carry, nanos: rest }
    }

    /// Whole seconds.
    pub fn as_secs(&self) -> (s: u64)
        ensures
            s == self.total_nanos() / (NANOS_PER_SEC as nat),
    {
        proof {
            use_type_invariant(self);
            assert((self.secs * NANOS_PER_SEC + self.nanos) / (NANOS_PER_SEC as int) == self.secs)
                by (nonlinear_arith)
                requires
                    self.nanos < NANOS_PER_SEC,
            ;
        }
        self.secs
    }

    /// Whether this duration is at least as long as `other`.
    pub fn at_least(&self, other: &Duration) -> (r: bool)
        ensures
            r == (self.total_nanos() >= other.total_nanos()),
    {
        proof {
            use_type_invariant(self);
            use_type_invariant(other);
            lemma_total_nanos_order(self.secs, self.nanos, other.secs, other.nanos);
        }
        self.secs > other.secs || (self.secs == other.secs && self.nanos >= other.nanos)
    }
}

proof fn lemma_total_nanos_order(s1: u64, n1: u32, s2: u64, n2: u32)
    requires
        n1 < NANOS_PER_SEC,
        n2 < NANOS_PER_SEC,
    ensures
        (s1 * NANOS_PER_SEC + n1 >= s2 * NANOS_PER_SEC + n2) <==> (s1 > s2 || (s1 == s2 && n1
            >= n2)),
{
    if s1 > s2 {
        assert(s1 * NANOS_PER_SEC >= (s2 + 1) * NANOS_PER_SEC) by (nonlinear_arith)
            requires
                s1 >= s2 + 1,
        ;
    } else if s1 < s2 {
        assert(s2 * NANOS_PER_SEC >= (s1 + 1) * NANOS_PER_SEC) by (nonlinear_arith)
            requires
                s2 >= s1 + 1,
        ;
    }
}

/// An input to the state machine.
#[derive(Debug, Clone, PartialEq)]
pub enum AgentEvent {
    Init,
    ToolStart(String),
    ToolEnd,
    PermissionPrompt,
    Tick(Duration),
    DespawnTimeout,
}

/// An action the state machine asks its host to carry out.
#[derive(Debug, Clone, PartialEq)]
pub enum SideEffect {
    RequestDeskPath,
    RequestWanderPath,
    RequestReturnPath,
    ShowBubble,
    HideBubble,
    SpawnSubAgent(String),
    ResetIdleTimer,
    FadeOut,
    FreeSeat,
}

/// An event as the contracts see it: tool names as character sequences,
/// elapsed time in nanoseconds.
pub enum EventView {
    Init,
    ToolStart(Seq<char>),
    ToolEnd,
    PermissionPrompt,
    Tick(nat),
    DespawnTimeout,
}

/// A side effect as the contracts see it.
pub enum EffectView {
    RequestDeskPath,
    RequestWanderPath,
    RequestReturnPath,
    ShowBubble,
    HideBubble,
    SpawnSubAgent(Seq<char>),
    ResetIdleTimer,
    FadeOut,
    FreeSeat,
}

impl View for AgentEvent {
    type V = EventView;

    open spec fn view(&self) -> EventView {
        match self {
            AgentEvent::Init => EventView::Init,
            AgentEvent::ToolStart(t) => EventView::ToolStart(t@),
            AgentEvent::ToolEnd => EventView::ToolEnd,
            AgentEvent::PermissionPrompt => EventView::PermissionPrompt,
            AgentEvent::Tick(d) => EventView::Tick(d.total_nanos()),
            AgentEvent::DespawnTimeout => EventView::DespawnTimeout,
        }
    }
}

impl View for SideEffect {
    type V = EffectView;

    open spec fn view(&self) -> EffectView {
        match self {
            SideEffect::RequestDeskPath => EffectView::RequestDeskPath,
            SideEffect::RequestWanderPath => EffectView::RequestWanderPath,
            SideEffect::RequestReturnPath => EffectView::RequestReturnPath,
            SideEffect::ShowBubble => EffectView::ShowBubble,
            SideEffect::HideBubble => EffectView::HideBubble,
            SideEffect::SpawnSubAgent(t) => EffectView::SpawnSubAgent(t@),
            SideEffect::ResetIdleTimer => EffectView::ResetIdleTimer,
            SideEffect::FadeOut => EffectView::FadeOut,
            SideEffect::FreeSeat => EffectView::FreeSeat,
        }
    }
}

/// The effects of a list, as the contracts see them.
pub open spec fn effects_view(effects: Seq<SideEffect>) -> Seq<EffectView> {
    effects.map_values(|e: SideEffect| e@)
}

/// How long an idle agent waits before it wanders, in nanoseconds (three seconds).
pub open spec fn idle_timeout_nanos() -> nat {
    3 * NANOS_PER_SEC as nat
}

/// Tools during which the agent types.
pub open spec fn is_typing_tool(t: Seq<char>) -> bool {
    t == "Write"@ || t == "Edit"@ || t == "Bash"@ || t == "NotebookEdit"@
}

/// Tools during which the agent reads.
pub open spec fn is_reading_tool(t: Seq<char>) -> bool {
    t == "Read"@ || t == "Grep"@ || t == "Glob"@ || t == "WebFetch"@ || t == "WebSearch"@
}

/// Tools that start a sub-agent.
pub open spec fn is_spawn_tool(t: Seq<char>) -> bool {
    t == "Agent"@ || t == "Task"@
}

/// Tools that wait for the user.
pub open spec fn is_waiting_tool(t: Seq<char>) -> bool {
    t == "AskUserQuestion"@
}

/// The state a tool puts an agent in; an unknown tool leaves it idle.
pub open spec fn tool_state(t: Seq<char>) -> AgentState {
    if is_typing_tool(t) {
        AgentState::Typing
    } else if is_reading_tool(t) {
        AgentState::Reading
    } else if is_spawn_tool(t) {
        AgentState::Walking
    } else if is_waiting_tool(t) {
        AgentState::Waiting
    } else {
        AgentState::Idle
    }
}

/// The sub-agent effect of a tool: one `SpawnSubAgent` for a spawning tool, none otherwise.
pub open spec fn spawn_effects(t: Seq<char>) -> Seq<EffectView> {
    if is_spawn_tool(t) {
        seq![EffectView::SpawnSubAgent(t)]
    } else {
        seq![]
    }
}

/// The next state and the effects, for each state and event.
pub open spec fn next(current: AgentState, event: EventView) -> (AgentState, Seq<EffectView>) {
    match event {
        EventView::DespawnTimeout => (
            AgentState::Despawn,
            seq![EffectView::FadeOut, EffectView::FreeSeat],
        ),
        EventView::PermissionPrompt => (AgentState::Waiting, seq![EffectView::ShowBubble]),
        EventView::Init => if current == AgentState::Spawned {
            (AgentState::Walking, seq![EffectView::RequestDeskPath])
        } else {
            (current, seq![])
        },
        EventView::ToolStart(t) => match current {
            AgentState::Waiting => (tool_state(t), seq![EffectView::HideBubble] + spawn_effects(t)),
            AgentState::Walking => (
                AgentState::Walking,
                seq![EffectView::RequestReturnPath] + spawn_effects(t),
            ),
            AgentState::Typing | AgentState::Reading | AgentState::Idle => (
                tool_state(t),
                spawn_effects(t),
            ),
            _ => (tool_state(t), seq![]),
        },
        EventView::ToolEnd => match current {
            AgentState::Typing | AgentState::Reading => (
                AgentState::Idle,
                seq![EffectView::ResetIdleTimer],
            ),
            AgentState::Waiting => (
                AgentState::Idle,
                seq![EffectView::HideBubble, EffectView::ResetIdleTimer],
            ),
            _ => (current, seq![]),
        },
        EventView::Tick(n) => if current == AgentState::Idle && n >= idle_timeout_nanos() {
            (AgentState::Walking, seq![EffectView::RequestWanderPath])
        } else {
            (current, seq![])
        },
    }
}

fn is_spawn_tool_name(tool: &str) -> (r: bool)
    ensures
        r == is_spawn_tool(tool@),
{
    str_eq(tool, "Agent") || str_eq(tool, "Task")
}

/// The state that a tool puts an agent in.
pub fn tool_to_state(tool: &str) -> (s: AgentState)
    ensures
        s == tool_state(tool@),
{
    if str_eq(tool, "Write") || str_eq(tool, "Edit") || str_eq(tool, "Bash") || str_eq(
        tool,
        "NotebookEdit",
    ) {
        AgentState::Typing
    } else if str_eq(tool, "Read") || str_eq(tool, "Grep") || str_eq(tool, "Glob") || str_eq(
        tool,
        "WebFetch",
    ) || str_eq(tool, "WebSearch") {
        AgentState::Reading
    } else if is_spawn_tool_name(tool) {
        AgentState::Walking
    } else if str_eq(tool, "AskUserQuestion") {
        AgentState::Waiting
    } else {
        AgentState::Idle
    }
}

/// Appends `SpawnSubAgent(tool)` when the tool starts a sub-agent.
fn push_spawn_effect(effects: &mut Vec<SideEffect>, tool: &String)
    ensures
        effects_view(final(effects)@) == effects_view(old(effects)@) + spawn_effects(tool@),
{
    let ghost before = effects@;
    if is_spawn_tool_name(tool.as_str()) {
        effects.push(SideEffect::SpawnSubAgent(tool.clone()));
        assert(effects_view(effects@) =~= effects_view(before) + spawn_effects(tool@));
    } else {
        assert(effects_view(effects@) =~= effects_view(before) + spawn_effects(tool@));
    }
}

/// One step of the agent state machine.
pub fn transition(current: AgentState, event: AgentEvent) -> (r: (AgentState, Vec<SideEffect>))
    ensures
        r.0 == next(current, event@).0,
        effects_view(r.1@) == next(current, event@).1,
{
    match event {
        AgentEvent::DespawnTimeout => {
            let v = vec![SideEffect::FadeOut, SideEffect::FreeSeat];
            assert(effects_view(v@) =~= seq![EffectView::FadeOut, EffectView::FreeSeat]);
            (AgentState::Despawn, v)
        },
        AgentEvent::PermissionPrompt => {
            let v = vec![SideEffect::ShowBubble];
            assert(effects_view(v@) =~= seq![EffectView::ShowBubble]);
            (AgentState::Waiting, v)
        },
        AgentEvent::Init => {
            if current == AgentState::Spawned {
                let v = vec![SideEffect::RequestDeskPath];
                assert(effects_view(v@) =~= seq![EffectView::RequestDeskPath]);
                (AgentState::Walking, v)
            } else {
                let v: Vec<SideEffect> = Vec::new();
                assert(effects_view(v@) =~= seq![]);
                (current, v)
            }
        },
        AgentEvent::ToolStart(tool) => {
            let next_state = tool_to_state(tool.as_str());
            let mut effects: Vec<SideEffect> = Vec::new();
            assert(effects_view(effects@) =~= seq![]);
            match current {
                AgentState::Waiting => {
                    effects.push(SideEffect::HideBubble);
                    assert(effects_view(effects@) =~= seq![EffectView::HideBubble]);
                    push_spawn_effect(&mut effects, &tool);
                },
                AgentState::Walking => {
                    effects.push(SideEffect::RequestReturnPath);
                    assert(effects_view(effects@) =~= seq![EffectView::RequestReturnPath]);
                    push_spawn_effect(&mut effects, &tool);
                    return (AgentState::Walking, effects);
                },
                AgentState::Typing | AgentState::Reading | AgentState::Idle => {
                    push_spawn_effect(&mut effects, &tool);
                    assert(seq![] + spawn_effects(tool@) =~= spawn_effects(tool@));
                },
                _ => {},
            }
            (next_state, effects)
        },
        AgentEvent::ToolEnd => {
            match current {
                AgentState::Typing | AgentState::Reading => {
                    let v = vec![SideEffect::ResetIdleTimer];
                    assert(effects_view(v@) =~= seq![EffectView::ResetIdleTimer]);
                    (AgentState::Idle, v)
                },
                AgentState::Waiting => {
                    let v = vec![SideEffect::HideBubble, SideEffect::ResetIdleTimer];
                    assert(effects_view(v@) =~= seq![
                        EffectView::HideBubble,
                        EffectView::ResetIdleTimer,
                    ]);
                    (AgentState::Idle, v)
                },
                _ => {
                    let v: Vec<SideEffect> = Vec::new();
                    assert(effects_view(v@) =~= seq![]);
                    (current, v)
                },
            }
        },
        AgentEvent::Tick(duration) => {
            let timeout = Duration::from_secs(3);
            if current == AgentState::Idle && duration.at_least(&timeout) {
                let v = vec![SideEffect::RequestWanderPath];
                assert(effects_view(v@) =~= seq![EffectView::RequestWanderPath]);
                (AgentState::Walking, v)
            } else {
                let v: Vec<SideEffect> = Vec::new();
                assert(effects_view(v@) =~= seq![]);
                (current, v)
            }
        },
    }
}

// ---------------------------------------------------------------------------
// Laws of the state machine
// ---------------------------------------------------------------------------

/// A despawn timeout wins from any state: the agent despawns, fades out and
/// frees its seat.
pub proof fn law_despawn_from_any_state(s: AgentState)
    ensures
        next(s, EventView::DespawnTimeout) == (
            AgentState::Despawn,
            seq![EffectView::FadeOut, EffectView::FreeSeat],
        ),
{
}

/// A permission prompt wins from any state: the agent waits and shows a bubble.
pub proof fn law_permission_prompt_from_any_state(s: AgentState)
    ensures
        next(s, EventView::PermissionPrompt) == (AgentState::Waiting, seq![EffectView::ShowBubble]),
{
}

/// A walking agent keeps walking whatever tool starts, and first asks for the
/// way back to its desk.
pub proof fn law_walking_stays_walking(tool: Seq<char>)
    ensures
        next(AgentState::Walking, EventView::ToolStart(tool)).0 == AgentState::Walking,
        next(AgentState::Walking, EventView::ToolStart(tool)).1[0] == EffectView::RequestReturnPath,
{
}

/// A tool that no list names leaves a non-walking agent idle, with no effects.
pub proof fn law_unknown_tool_is_idle(s: AgentState, tool: Seq<char>)
    requires
        !is_typing_tool(tool),
        !is_reading_tool(tool),
        !is_spawn_tool(tool),
        !is_waiting_tool(tool),
        s != AgentState::Walking,
        s != AgentState::Waiting,
    ensures
        next(s, EventView::ToolStart(tool)) == (AgentState::Idle, Seq::<EffectView>::empty()),
{
    assert(spawn_effects(tool) =~= Seq::<EffectView>::empty());
}

/// The end of a tool changes nothing unless the agent was typing, reading or
/// waiting.
pub proof fn law_tool_end_noop_unless_busy(s: AgentState)
    requires
        s != AgentState::Typing,
        s != AgentState::Reading,
        s != AgentState::Waiting,
    ensures
        next(s, EventView::ToolEnd) == (s, Seq::<EffectView>::empty()),
{
}

/// Time alone only moves an idle agent, and only once three seconds have
/// passed; a longer wait moves it too.
pub proof fn law_tick_moves_only_idle_after_timeout(s: AgentState, n: nat, m: nat)
    ensures
        next(s, EventView::Tick(n)).0 != s ==> s == AgentState::Idle && n >= idle_timeout_nanos(),
        next(s, EventView::Tick(n)).0 != s ==> next(s, EventView::Tick(n)).0 == AgentState::Walking,
        next(s, EventView::Tick(n)).0 == s ==> next(s, EventView::Tick(n)).1.len() == 0,
        n <= m && next(s, EventView::Tick(n)).0 == AgentState::Walking && s == AgentState::Idle
            ==> next(s, EventView::Tick(m)).0 == AgentState::Walking,
{
}

/// A sub-agent is announced exactly when a spawning tool starts for an agent
/// that is waiting, walking, typing, reading or idle.
pub proof fn law_spawn_effect(s: AgentState, tool: Seq<char>)
    ensures
        next(s, EventView::ToolStart(tool)).1.contains(EffectView::SpawnSubAgent(tool)) <==> (
        is_spawn_tool(tool) && s != AgentState::Spawned && s != AgentState::Despawn),
{
    let effects = next(s, EventView::ToolStart(tool)).1;
    if is_spawn_tool(tool) && s != AgentState::Spawned && s != AgentState::Despawn {
        assert(effects[effects.len() - 1] == EffectView::SpawnSubAgent(tool));
    } else if effects.contains(EffectView::SpawnSubAgent(tool)) {
        let i = choose|i: int| 0 <= i < effects.len() && effects[i] == EffectView::SpawnSubAgent(tool);
        assert(effects[i] == EffectView::SpawnSubAgent(tool));
    }
}

/// Init only starts a freshly spawned agent walking to its desk.
pub proof fn law_init_only_starts_spawned(s: AgentState)
    ensures
        s == AgentState::Spawned ==> next(s, EventView::Init) == (
            AgentState::Walking,
            seq![EffectView::RequestDeskPath],
        ),
        s != AgentState::Spawned ==> next(s, EventView::Init) == (s, Seq::<EffectView>::empty()),
{
}

/// The end of a tool frees a busy agent: a typing or reading agent goes idle
/// and its idle timer restarts; a waiting agent also hides its bubble.
pub proof fn law_tool_end_frees_busy_agent(s: AgentState)
    ensures
        s == AgentState::Typing || s == AgentState::Reading ==> next(s, EventView::ToolEnd) == (
            AgentState::Idle,
            seq![EffectView::ResetIdleTimer],
        ),
        s == AgentState::Waiting ==> next(s, EventView::ToolEnd) == (
            AgentState::Idle,
            seq![EffectView::HideBubble, EffectView::ResetIdleTimer],
        ),
{
}

/// A tool that starts while an agent is idle, typing, reading or waiting puts it
/// in the tool's state: typing for `Write`, `Edit`, `Bash`, `NotebookEdit`;
/// reading for `Read`, `Grep`, `Glob`, `WebFetch`, `WebSearch`; walking for
/// `Agent`, `Task`; waiting for `AskUserQuestion`.
pub proof fn law_tool_start_sets_state(s: AgentState, tool: Seq<char>)
    requires
        s == AgentState::Idle || s == AgentState::Typing || s == AgentState::Reading || s
            == AgentState::Waiting,
    ensures
        (tool == "Write"@ || tool == "Edit"@ || tool == "Bash"@ || tool == "NotebookEdit"@) ==> next(
            s,
            EventView::ToolStart(tool),
        ).0 == AgentState::Typing,
        (tool == "Read"@ || tool == "Grep"@ || tool == "Glob"@ || tool == "WebFetch"@ || tool
            == "WebSearch"@) ==> next(s, EventView::ToolStart(tool)).0 == AgentState::Reading,
        (tool == "Agent"@ || tool == "Task"@) ==> next(s, EventView::ToolStart(tool)).0
            == AgentState::Walking,
        tool == "AskUserQuestion"@ ==> next(s, EventView::ToolStart(tool)).0 == AgentState::Waiting,
{
    reveal_strlit("Write");
    reveal_strlit("Edit");
    reveal_strlit("Bash");
    reveal_strlit("NotebookEdit");
    reveal_strlit("Read");
    reveal_strlit("Grep");
    reveal_strlit("Glob");
    reveal_strlit("WebFetch");
    reveal_strlit("WebSearch");
    reveal_strlit("Agent");
    reveal_strlit("Task");
    reveal_strlit("AskUserQuestion");
    assert("Write"@.len() == 5 && "Write"@[0] == 'W' && "Write"@[1] == 'r');
    assert("Edit"@.len() == 4 && "Edit"@[0] == 'E' && "Edit"@[1] == 'd');
    assert("Bash"@.len() == 4 && "Bash"@[0] == 'B' && "Bash"@[1] == 'a');
    assert("NotebookEdit"@.len() == 12 && "NotebookEdit"@[0] == 'N' && "NotebookEdit"@[1] == 'o');
    assert("Read"@.len() == 4 && "Read"@[0] == 'R' && "Read"@[1] == 'e');
    assert("Grep"@.len() == 4 && "Grep"@[0] == 'G' && "Grep"@[1] == 'r');
    assert("Glob"@.len() == 4 && "Glob"@[0] == 'G' && "Glob"@[1] == 'l');
    assert("WebFetch"@.len() == 8 && "WebFetch"@[0] == 'W' && "WebFetch"@[1] == 'e');
    assert("WebSearch"@.len() == 9 && "WebSearch"@[0] == 'W' && "WebSearch"@[1] == 'e');
    assert("Agent"@.len() == 5 && "Agent"@[0] == 'A' && "Agent"@[1] == 'g');
    assert("Task"@.len() == 4 && "Task"@[0] == 'T' && "Task"@[1] == 'a');
    assert("AskUserQuestion"@.len() == 15 && "AskUserQuestion"@[0] == 'A' && "AskUserQuestion"@[1] == 's');
}

} // verus!
