use mackerel::parse::parse_file;
use mackerel::parse::parse_macro;
use mackerel::script::handle_event;
use mackerel::script::Action;
use mackerel::script::Button;
use mackerel::script::Event;
use mackerel::script::Macro;
use mackerel::script::Step;
use mackerel::script::Trigger;
use mackerel::script::EMIT_DELAY_MS;

#[test]
fn single_trigger_matches_release_not_press() {
    let (_, m) = parse_macro("Mouse1 {\n press MouseLeft\n}").unwrap();
    let release = Event::ButtonRelease(Button::Other(1));
    let press = Event::ButtonPress(Button::Other(1));
    assert!(m.trigger.on_event(&release));
    assert!(!m.trigger.on_event(&press));
    assert!(!m.trigger.on_event(&Event::ButtonRelease(Button::Other(2))));
}

#[test]
fn combo_trigger_never_matches() {
    let t = Trigger::Combo(vec![
        Event::ButtonRelease(Button::Left),
        Event::ButtonRelease(Button::Right),
    ]);
    assert!(!t.on_event(&Event::ButtonRelease(Button::Left)));
    assert!(!t.on_event(&Event::ButtonRelease(Button::Right)));
}

#[test]
fn no_match_gives_no_steps() {
    let m = Macro {
        trigger: Trigger::Single(Event::ButtonRelease(Button::Left)),
        actions: vec![Action::Emit(Event::ButtonPress(Button::Right))],
    };
    let steps = m.on_event(&Event::ButtonPress(Button::Left), (0, 0));
    assert!(steps.is_empty());
}

#[test]
fn emit_steps_carry_fixed_delay() {
    let m = Macro {
        trigger: Trigger::Single(Event::ButtonRelease(Button::Left)),
        actions: vec![
            Action::Emit(Event::ButtonPress(Button::Right)),
            Action::Wait(250),
            Action::Emit(Event::ButtonRelease(Button::Right)),
        ],
    };
    let steps = m.on_event(&Event::ButtonRelease(Button::Left), (0, 0));
    assert_eq!(
        steps,
        vec![
            Step::Inject(Event::ButtonPress(Button::Right)),
            Step::Sleep(EMIT_DELAY_MS),
            Step::Sleep(250),
            Step::Inject(Event::ButtonRelease(Button::Right)),
            Step::Sleep(EMIT_DELAY_MS),
        ]
    );
}

#[test]
fn return_to_start_targets_position_at_trigger_time() {
    // The replay moves the pointer itself before returning to start: the
    // return target is still the position sampled when the trigger fired.
    let m = Macro {
        trigger: Trigger::Single(Event::ButtonRelease(Button::Left)),
        actions: vec![
            Action::Emit(Event::MouseMove { x: 5, y: 6 }),
            Action::ReturnToStart,
        ],
    };
    let steps = m.on_event(&Event::ButtonRelease(Button::Left), (33, 44));
    assert_eq!(
        steps,
        vec![
            Step::Inject(Event::MouseMove { x: 5, y: 6 }),
            Step::Sleep(EMIT_DELAY_MS),
            Step::Inject(Event::MouseMove { x: 33, y: 44 }),
            Step::Sleep(EMIT_DELAY_MS),
        ]
    );
}

#[test]
fn matching_macros_replay_sequentially_in_load_order() {
    // Both macros fire on the same event; the second's steps all come after
    // every step of the first, waits included.
    let trigger_event = Event::ButtonRelease(Button::Other(1));
    let a = Event::ButtonPress(Button::Left);
    let b = Event::ButtonRelease(Button::Left);
    let first = Macro {
        trigger: Trigger::Single(trigger_event),
        actions: vec![Action::Emit(a), Action::Wait(50), Action::Emit(b)],
    };
    let second = Macro {
        trigger: Trigger::Single(trigger_event),
        actions: vec![Action::Emit(Event::ButtonPress(Button::Middle))],
    };
    let macros = vec![first, second];
    let steps = handle_event(&macros, &trigger_event, (0, 0));
    assert_eq!(
        steps,
        vec![
            Step::Inject(a),
            Step::Sleep(EMIT_DELAY_MS),
            Step::Sleep(50),
            Step::Inject(b),
            Step::Sleep(EMIT_DELAY_MS),
            Step::Inject(Event::ButtonPress(Button::Middle)),
            Step::Sleep(EMIT_DELAY_MS),
        ]
    );
}

#[test]
fn non_matching_macro_contributes_nothing() {
    let ev = Event::ButtonRelease(Button::Other(1));
    let quiet = Macro {
        trigger: Trigger::Single(Event::ButtonRelease(Button::Other(9))),
        actions: vec![Action::Emit(Event::ButtonPress(Button::Left))],
    };
    let loud = Macro {
        trigger: Trigger::Single(ev),
        actions: vec![Action::Emit(Event::ButtonPress(Button::Right))],
    };
    let macros = vec![quiet, loud];
    let steps = handle_event(&macros, &ev, (0, 0));
    assert_eq!(
        steps,
        vec![
            Step::Inject(Event::ButtonPress(Button::Right)),
            Step::Sleep(EMIT_DELAY_MS),
        ]
    );
}

#[test]
fn apply_offset_shifts_literal_moves_only() {
    let file = "Mouse1 {\n move to 100,100\n move to start\n wait 1\n}";
    let mut macros = parse_file(file).unwrap();
    assert!(macros[0].offset_fits(10, -5));
    macros[0].apply_offset(10, -5);
    assert_eq!(
        macros[0].actions,
        vec![
            Action::Emit(Event::MouseMove { x: 110, y: 95 }),
            Action::ReturnToStart,
            Action::Wait(1000),
        ]
    );
}

#[test]
fn apply_offset_leaves_trigger_alone() {
    let (_, mut m) = parse_macro("MouseLeft {\n move to 7,8\n}").unwrap();
    m.apply_offset(1, 2);
    match &m.trigger {
        Trigger::Single(ev) => assert_eq!(*ev, Event::ButtonRelease(Button::Left)),
        _ => panic!("single trigger expected"),
    }
    assert_eq!(m.actions, vec![Action::Emit(Event::MouseMove { x: 8, y: 10 })]);
}

#[test]
fn offset_fits_detects_coordinate_overflow() {
    let m = Macro {
        trigger: Trigger::Single(Event::ButtonRelease(Button::Left)),
        actions: vec![Action::Emit(Event::MouseMove { x: i64::MAX, y: 0 })],
    };
    assert!(!m.offset_fits(1, 0));
    assert!(m.offset_fits(-1, 7));
}
