//! Macro data model and execution engine.
//!
//! A `Macro` pairs a `Trigger` (the condition on an incoming event) with an
//! ordered list of `Action`s. The engine does not perform input injection
//! itself: for one incoming event it computes the exact, ordered sequence of
//! `Step`s (inject this event / sleep this many milliseconds) that a driver
//! must carry out synchronously.
use vstd::prelude::*;

verus! {

/// A mouse button. Buttons other than the three named ones are carried by
/// their device button number.
#[derive(Clone, Copy, Debug, PartialEq, Eq, Structural)]
pub enum Button {
    Left,
    Right,
    Middle,
    Other(u8),
}

/// One input event, in logical (post-transform) coordinates. Keyboard keys
/// are carried as plain key codes; the script language cannot name them yet,
/// so no trigger or action ever holds one, but the engine accepts them.
#[derive(Clone, Copy, Debug, PartialEq, Eq, Structural)]
pub enum Event {
    KeyPress(u32),
    KeyRelease(u32),
    ButtonPress(Button),
    ButtonRelease(Button),
    MouseMove { x: i64, y: i64 },
}

/// One step of a macro's replay sequence.
#[derive(Clone, Copy, Debug, PartialEq, Eq, Structural)]
pub enum Action {
    /// Replay exactly this event.
    Emit(Event),
    /// Move the pointer back to where it was when the macro's trigger fired.
    ReturnToStart,
    /// Suspend the replay for this many milliseconds.
    Wait(u32),
}

/// The condition that makes a macro fire.
#[derive(Debug)]
pub enum Trigger {
    /// Fires when the incoming event equals this one exactly.
    Single(Event),
    /// A chorded trigger (several inputs held together). Matching is reserved
    /// for a future capability: it never fires today.
    Combo(Vec<Event>),
}

/// Mathematical model of a `Trigger`.
pub enum TriggerModel {
    Single(Event),
    Combo(Seq<Event>),
}

impl View for Trigger {
    type V = TriggerModel;

    open spec fn view(&self) -> TriggerModel {
        match self {
            Trigger::Single(e) => TriggerModel::Single(*e),
            Trigger::Combo(es) => TriggerModel::Combo(es@),
        }
    }
}

/// A parsed macro: its trigger and its ordered action list.
#[derive(Debug)]
pub struct Macro {
    pub trigger: Trigger,
    pub actions: Vec<Action>,
}

/// Mathematical model of a `Macro`.
pub struct MacroModel {
    pub trigger: TriggerModel,
    pub actions: Seq<Action>,
}

impl View for Macro {
    type V = MacroModel;

    open spec fn view(&self) -> MacroModel {
        MacroModel { trigger: self.trigger@, actions: self.actions@ }
    }
}

/// What a driver must do for one step of a replay: ask the injection
/// facility to synthesize `Inject`'s event, or block for `Sleep`'s
/// milliseconds.
#[derive(Clone, Copy, Debug, PartialEq, Eq, Structural)]
pub enum Step {
    Inject(Event),
    Sleep(u32),
}

/// Fixed delay inserted after every injected event, so that replay does not
/// overwhelm the input queue.
pub const EMIT_DELAY_MS: u32 = 40;

/// When a trigger fires: a `Single` trigger on exact event equality, a
/// `Combo` never (reserved).
pub open spec fn trigger_matches(t: TriggerModel, e: Event) -> bool {
    match t {
        TriggerModel::Single(te) => e == te,
        TriggerModel::Combo(_) => false,
    }
}

impl Trigger {
    /// Whether an incoming event fires this trigger.
    pub fn on_event(&self, event: &Event) -> (r: bool)
        ensures
            r == trigger_matches(self@, *event),
    {
        match self {
            Trigger::Single(trigger) => *event == *trigger,
            Trigger::Combo(_) => false,
        }
    }
}

/// The steps one action contributes to a replay: every injected event is
/// followed by the fixed delay; a wait is only a sleep. `pos` is the logical
/// pointer position sampled when the owning macro's trigger fired.
pub open spec fn action_steps(a: Action, pos: (i64, i64)) -> Seq<Step> {
    match a {
        Action::Emit(e) => seq![Step::Inject(e), Step::Sleep(EMIT_DELAY_MS)],
        Action::ReturnToStart => seq![
            Step::Inject(Event::MouseMove { x: pos.0, y: pos.1 }),
            Step::Sleep(EMIT_DELAY_MS),
        ],
        Action::Wait(ms) => seq![Step::Sleep(ms)],
    }
}

/// The steps of a whole action list, strictly in order.
pub open spec fn replay_steps(actions: Seq<Action>, pos: (i64, i64)) -> Seq<Step>
    decreases actions.len(),
{
    if actions.len() == 0 {
        Seq::empty()
    } else {
        replay_steps(actions.drop_last(), pos) + action_steps(actions.last(), pos)
    }
}

/// The steps one macro contributes for one incoming event: its whole action
/// list if its trigger fires, nothing otherwise.
pub open spec fn macro_steps(m: MacroModel, e: Event, pos: (i64, i64)) -> Seq<Step> {
    if trigger_matches(m.trigger, e) {
        replay_steps(m.actions, pos)
    } else {
        Seq::empty()
    }
}

impl Macro {
    /// The replay this macro performs for one incoming event: empty if the
    /// trigger does not fire, else its actions' steps strictly in order.
    /// `mouse_pos` is the logical pointer position at the moment of the
    /// event; `ReturnToStart` targets exactly that position however the
    /// pointer moves later.
    pub fn on_event(&self, event: &Event, mouse_pos: (i64, i64)) -> (steps: Vec<Step>)
        ensures
            steps@ == macro_steps(self@, *event, mouse_pos),
    {
        let mut steps: Vec<Step> = Vec::new();
        if !self.trigger.on_event(event) {
            assert(steps@ =~= macro_steps(self@, *event, mouse_pos));
            return steps;
        }
        let mut i: usize = 0;
        while i < self.actions.len()
            invariant
                i <= self.actions@.len(),
                steps@ == replay_steps(self.actions@.take(i as int), mouse_pos),
            decreases self.actions@.len() - i,
        {
            let ghost prefix = self.actions@.take(i as int);
            match self.actions[i] {
                Action::Emit(e) => {
                    steps.push(Step::Inject(e));
                    steps.push(Step::Sleep(EMIT_DELAY_MS));
                },
                Action::ReturnToStart => {
                    steps.push(Step::Inject(Event::MouseMove { x: mouse_pos.0, y: mouse_pos.1 }));
                    steps.push(Step::Sleep(EMIT_DELAY_MS));
                },
                Action::Wait(ms) => {
                    steps.push(Step::Sleep(ms));
                },
            }
            proof {
                let next = self.actions@.take(i + 1 as int);
                assert(next.drop_last() =~= prefix);
                assert(next.last() == self.actions@[i as int]);
                assert(steps@ =~= replay_steps(prefix, mouse_pos) + action_steps(
                    self.actions@[i as int],
                    mouse_pos,
                ));
            }
            i = i + 1;
        }
        proof {
            assert(self.actions@.take(self.actions@.len() as int) =~= self.actions@);
        }
        steps
    }
}

/// Whether shifting one action's literal move target by `(dx, dy)` stays
/// within the coordinate type. Actions without a literal target shift
/// trivially.
pub open spec fn shift_fits(a: Action, dx: int, dy: int) -> bool {
    match a {
        Action::Emit(Event::MouseMove { x, y }) => {
            &&& i64::MIN <= x + dx <= i64::MAX
            &&& i64::MIN <= y + dy <= i64::MAX
        },
        _ => true,
    }
}

/// One action with its literal move target shifted by `(dx, dy)`; every
/// other action (including `ReturnToStart`) is left alone.
pub open spec fn shift_action(a: Action, dx: int, dy: int) -> Action {
    match a {
        Action::Emit(Event::MouseMove { x, y }) => Action::Emit(
            Event::MouseMove { x: (x + dx) as i64, y: (y + dy) as i64 },
        ),
        _ => a,
    }
}

/// Whether shifting every literal move target in the list by `(dx, dy)`
/// stays within the coordinate type.
pub open spec fn all_shifts_fit(actions: Seq<Action>, dx: int, dy: int) -> bool {
    forall|k: int| 0 <= k < actions.len() ==> shift_fits(actions[k], dx, dy)
}

impl Macro {
    /// Whether `apply_offset` with this offset would keep every literal move
    /// target within the coordinate type.
    pub fn offset_fits(&self, offset_x: i32, offset_y: i32) -> (r: bool)
        ensures
            r == all_shifts_fit(self@.actions, offset_x as int, offset_y as int),
    {
        let mut i: usize = 0;
        while i < self.actions.len()
            invariant
                i <= self.actions@.len(),
                forall|k: int|
                    0 <= k < i ==> shift_fits(self.actions@[k], offset_x as int, offset_y as int),
            decreases self.actions@.len() - i,
        {
            match self.actions[i] {
                Action::Emit(Event::MouseMove { x, y }) => {
                    if x.checked_add(offset_x as i64).is_none() {
                        proof {
                            if all_shifts_fit(self@.actions, offset_x as int, offset_y as int) {
                                assert(shift_fits(
                                    self@.actions[i as int],
                                    offset_x as int,
                                    offset_y as int,
                                ));
                            }
                        }
                        return false;
                    }
                    if y.checked_add(offset_y as i64).is_none() {
                        proof {
                            if all_shifts_fit(self@.actions, offset_x as int, offset_y as int) {
                                assert(shift_fits(
                                    self@.actions[i as int],
                                    offset_x as int,
                                    offset_y as int,
                                ));
                            }
                        }
                        return false;
                    }
                },
                _ => {},
            }
            i = i + 1;
        }
        true
    }

    /// Shift every literal pointer-move target in the action list by
    /// `(offset_x, offset_y)`. Applied once, right after parsing, before the
    /// engine sees live events; triggers, waits and `ReturnToStart` are
    /// untouched, and the scale factor is deliberately not applied here (only
    /// the live per-event transform scales).
    pub fn apply_offset(&mut self, offset_x: i32, offset_y: i32)
        requires
            all_shifts_fit(old(self)@.actions, offset_x as int, offset_y as int),
        ensures
            final(self)@.trigger == old(self)@.trigger,
            final(self)@.actions.len() == old(self)@.actions.len(),
            forall|k: int|
                0 <= k < old(self)@.actions.len() ==> final(self)@.actions[k] == shift_action(
                    old(self)@.actions[k],
                    offset_x as int,
                    offset_y as int,
                ),
    {
        let mut shifted: Vec<Action> = Vec::new();
        let mut i: usize = 0;
        while i < self.actions.len()
            invariant
                i <= self.actions@.len(),
                shifted@.len() == i,
                forall|k: int|
                    0 <= k < self.actions@.len() ==> shift_fits(
                        self.actions@[k],
                        offset_x as int,
                        offset_y as int,
                    ),
                forall|k: int|
                    0 <= k < i ==> shifted@[k] == shift_action(
                        self.actions@[k],
                        offset_x as int,
                        offset_y as int,
                    ),
            decreases self.actions@.len() - i,
        {
            let a = self.actions[i];
            match a {
                Action::Emit(Event::MouseMove { x, y }) => {
                    shifted.push(
                        Action::Emit(
                            Event::MouseMove { x: x + offset_x as i64, y: y + offset_y as i64 },
                        ),
                    );
                },
                _ => {
                    shifted.push(a);
                },
            }
            i = i + 1;
        }
        self.actions = shifted;
    }
}

/// The steps a whole macro collection performs for one incoming event: each
/// macro's contribution, in the collection's load order.
pub open spec fn all_steps(macros: Seq<Macro>, e: Event, pos: (i64, i64)) -> Seq<Step>
    decreases macros.len(),
{
    if macros.len() == 0 {
        Seq::empty()
    } else {
        all_steps(macros.drop_last(), e, pos) + macro_steps(macros.last()@, e, pos)
    }
}

/// Handle one incoming (transformed) event against every loaded macro:
/// matching macros replay one after another in load order, never
/// interleaved. `mouse_pos` is the logical pointer position at the event.
pub fn handle_event(macros: &Vec<Macro>, event: &Event, mouse_pos: (i64, i64)) -> (steps: Vec<
    Step,
>)
    ensures
        steps@ == all_steps(macros@, *event, mouse_pos),
{
    let mut steps: Vec<Step> = Vec::new();
    let mut i: usize = 0;
    while i < macros.len()
        invariant
            i <= macros@.len(),
            steps@ == all_steps(macros@.take(i as int), *event, mouse_pos),
        decreases macros@.len() - i,
    {
        let ghost prefix = macros@.take(i as int);
        let mut more = macros[i].on_event(event, mouse_pos);
        let ghost contributed = more@;
        steps.append(&mut more);
        proof {
            let next = macros@.take(i + 1 as int);
            assert(next.drop_last() =~= prefix);
            assert(next.last() == macros@[i as int]);
            assert(steps@ =~= all_steps(prefix, *event, mouse_pos) + contributed);
        }
        i = i + 1;
    }
    proof {
        assert(macros@.take(macros@.len() as int) =~= macros@);
    }
    steps
}

/// Replay is strictly sequential within a macro: the steps of an action list
/// are those of the actions before position `i`, then exactly the steps of
/// the action at `i`, then those of the actions after it, with nothing
/// interleaved.
pub proof fn lemma_replay_decomposition(actions: Seq<Action>, pos: (i64, i64), i: int)
    requires
        0 <= i < actions.len(),
    ensures
        replay_steps(actions, pos) == replay_steps(actions.take(i), pos) + action_steps(
            actions[i],
            pos,
        ) + replay_steps(actions.subrange(i + 1, actions.len() as int), pos),
    decreases actions.len(),
{
    if i == actions.len() - 1 {
        assert(actions.drop_last() =~= actions.take(i));
        assert(actions.subrange(i + 1, actions.len() as int) =~= Seq::<Action>::empty());
        assert(replay_steps(actions, pos) =~= replay_steps(actions.take(i), pos) + action_steps(
            actions[i],
            pos,
        ) + replay_steps(actions.subrange(i + 1, actions.len() as int), pos));
    } else {
        let front = actions.drop_last();
        lemma_replay_decomposition(front, pos, i);
        assert(front.take(i) =~= actions.take(i));
        let tail = actions.subrange(i + 1, actions.len() as int);
        assert(tail.drop_last() =~= front.subrange(i + 1, front.len() as int));
        assert(tail.last() == actions.last());
        assert(replay_steps(actions, pos) =~= replay_steps(actions.take(i), pos) + action_steps(
            actions[i],
            pos,
        ) + replay_steps(tail, pos));
    }
}

/// A `ReturnToStart` at position `i` of a replaying action list injects, at
/// exactly that point, a pointer move whose target is the position sampled
/// when the macro's trigger fired — whatever pointer movement the replay
/// itself causes before or after it.
pub proof fn lemma_return_to_start_targets_origin(actions: Seq<Action>, pos: (i64, i64), i: int)
    requires
        0 <= i < actions.len(),
        actions[i] == Action::ReturnToStart,
    ensures
        replay_steps(actions, pos) == replay_steps(actions.take(i), pos) + seq![
            Step::Inject(Event::MouseMove { x: pos.0, y: pos.1 }),
            Step::Sleep(EMIT_DELAY_MS),
        ] + replay_steps(actions.subrange(i + 1, actions.len() as int), pos),
{
    lemma_replay_decomposition(actions, pos, i);
}

/// Replay is strictly sequential and non-interruptible across macros: for
/// one incoming event, the steps of the whole collection are the steps of
/// the macros loaded before position `i`, then the complete replay of the
/// macro at `i` (all its injections, fixed delays and waits), then the steps
/// of the macros after it. No step of a later macro runs until every step of
/// an earlier one — waits included — has completed.
pub proof fn lemma_macros_replay_in_order(macros: Seq<Macro>, e: Event, pos: (i64, i64), i: int)
    requires
        0 <= i < macros.len(),
    ensures
        all_steps(macros, e, pos) == all_steps(macros.take(i), e, pos) + macro_steps(
            macros[i]@,
            e,
            pos,
        ) + all_steps(macros.subrange(i + 1, macros.len() as int), e, pos),
    decreases macros.len(),
{
    if i == macros.len() - 1 {
        assert(macros.drop_last() =~= macros.take(i));
        assert(macros.subrange(i + 1, macros.len() as int) =~= Seq::<Macro>::empty());
        assert(all_steps(macros, e, pos) =~= all_steps(macros.take(i), e, pos) + macro_steps(
            macros[i]@,
            e,
            pos,
        ) + all_steps(macros.subrange(i + 1, macros.len() as int), e, pos));
    } else {
        let front = macros.drop_last();
        lemma_macros_replay_in_order(front, e, pos, i);
        assert(front.take(i) =~= macros.take(i));
        let tail = macros.subrange(i + 1, macros.len() as int);
        assert(tail.drop_last() =~= front.subrange(i + 1, front.len() as int));
        assert(tail.last() == macros.last());
        assert(all_steps(macros, e, pos) =~= all_steps(macros.take(i), e, pos) + macro_steps(
            macros[i]@,
            e,
            pos,
        ) + all_steps(tail, e, pos));
    }
}

} // verus!
