use mackerel::parse::parse_action;
use mackerel::parse::parse_file;
use mackerel::parse::parse_macro;
use mackerel::parse::parse_seconds;
use mackerel::script::Action;
use mackerel::script::Button;
use mackerel::script::Event;
use mackerel::script::Trigger;

#[test]
fn test_parse_seconds() {
    let secdef1 = "0.1234";
    let secdef2 = "0.123";
    let (_, ms1) = parse_seconds(secdef1).unwrap();
    let (_, ms2) = parse_seconds(secdef2).unwrap();
    assert_eq!(123, ms1);
    assert_eq!(123, ms2);
}

#[test]
fn test_parse_action() {
    let actiondef = "press Mouse1";
    let (input, action) = parse_action(actiondef).unwrap();
    assert_eq!(input, "");
    println!("{action:?}");
}

#[test]
fn test_parse_macro() {
    let macrodef = r#"Mouse1 {
            move to 1110, 600
            press MouseLeft
            move to start
        }"#;
    let (input, script) = parse_macro(macrodef).unwrap();
    assert_eq!(input, "");
    println!("{script:?}");
}

#[test]
fn test_parse_file() {
    let file = r#"
        Mouse1 {
            move to 1110, 600
            press MouseLeft
            move to start
        }"#;
    let macros = parse_file(file).unwrap();
    println!("{macros:?}");
}

#[test]
fn seconds_whole_only() {
    let (rest, ms) = parse_seconds("2").unwrap();
    assert_eq!(rest, "");
    assert_eq!(ms, 2000);
}

#[test]
fn seconds_short_fraction_zero_padded() {
    let (rest, ms) = parse_seconds("0.5").unwrap();
    assert_eq!(rest, "");
    assert_eq!(ms, 500);
}

#[test]
fn seconds_two_point_five() {
    let (_, ms) = parse_seconds("2.5").unwrap();
    assert_eq!(ms, 2500);
}

#[test]
fn seconds_dot_without_digits_left_unconsumed() {
    let (rest, ms) = parse_seconds("2.").unwrap();
    assert_eq!(rest, ".");
    assert_eq!(ms, 2000);
}

#[test]
fn seconds_overflow_fails() {
    // 5000000 s = 5e9 ms, more than the millisecond type holds.
    assert!(parse_seconds("5000000").is_none());
    assert!(parse_seconds("99999999999999999999").is_none());
}

#[test]
fn seconds_no_digits_fails() {
    assert!(parse_seconds(".5").is_none());
    assert!(parse_seconds("x").is_none());
    assert!(parse_seconds("").is_none());
}

#[test]
fn press_expands_to_tap() {
    let (rest, acts) = parse_action("press MouseLeft").unwrap();
    assert_eq!(rest, "");
    assert_eq!(
        acts,
        vec![
            Action::Emit(Event::ButtonPress(Button::Left)),
            Action::Emit(Event::ButtonRelease(Button::Left)),
        ]
    );
}

#[test]
fn hold_expands_to_press_only() {
    let (rest, acts) = parse_action("hold MouseLeft").unwrap();
    assert_eq!(rest, "");
    assert_eq!(acts, vec![Action::Emit(Event::ButtonPress(Button::Left))]);
}

#[test]
fn release_expands_to_release_only() {
    let (rest, acts) = parse_action("release MouseLeft").unwrap();
    assert_eq!(rest, "");
    assert_eq!(acts, vec![Action::Emit(Event::ButtonRelease(Button::Left))]);
}

#[test]
fn wait_action_in_milliseconds() {
    let (rest, acts) = parse_action("wait 0.5").unwrap();
    assert_eq!(rest, "");
    assert_eq!(acts, vec![Action::Wait(500)]);
}

#[test]
fn move_to_literal_location() {
    let (rest, acts) = parse_action("move to 100,100").unwrap();
    assert_eq!(rest, "");
    assert_eq!(acts, vec![Action::Emit(Event::MouseMove { x: 100, y: 100 })]);
}

#[test]
fn move_to_start_action() {
    let (rest, acts) = parse_action("move to start").unwrap();
    assert_eq!(rest, "");
    assert_eq!(acts, vec![Action::ReturnToStart]);
}

#[test]
fn named_buttons_parse() {
    let (_, a) = parse_action("press MouseRight").unwrap();
    assert_eq!(
        a,
        vec![
            Action::Emit(Event::ButtonPress(Button::Right)),
            Action::Emit(Event::ButtonRelease(Button::Right)),
        ]
    );
    let (_, a) = parse_action("press MouseMiddle").unwrap();
    assert_eq!(
        a,
        vec![
            Action::Emit(Event::ButtonPress(Button::Middle)),
            Action::Emit(Event::ButtonRelease(Button::Middle)),
        ]
    );
    let (_, a) = parse_action("press Mouse255").unwrap();
    assert_eq!(
        a,
        vec![
            Action::Emit(Event::ButtonPress(Button::Other(255))),
            Action::Emit(Event::ButtonRelease(Button::Other(255))),
        ]
    );
}

#[test]
fn button_number_over_one_byte_fails() {
    assert!(parse_action("press Mouse256").is_none());
    assert!(parse_action("press Mouse999").is_none());
}

#[test]
fn key_names_are_rejected() {
    // Key-name parsing is reserved by the grammar and unimplemented: the
    // statement must fail, never silently succeed.
    assert!(parse_action("press Shift").is_none());
    assert!(parse_action("hold a").is_none());
    assert!(parse_action("release Escape").is_none());
}

#[test]
fn location_coordinate_overflow_fails() {
    assert!(parse_action("move to 99999999999,0").is_none());
    assert!(parse_action("move to 0,2147483648").is_none());
    // The largest accepted coordinate.
    let (_, a) = parse_action("move to 2147483647,0").unwrap();
    assert_eq!(a, vec![Action::Emit(Event::MouseMove { x: 2147483647, y: 0 })]);
}

#[test]
fn trigger_is_release_of_named_button() {
    let (_, m) = parse_macro("Mouse1 {\n press MouseLeft\n}").unwrap();
    match &m.trigger {
        Trigger::Single(ev) => {
            assert_eq!(*ev, Event::ButtonRelease(Button::Other(1)));
        }
        Trigger::Combo(_) => panic!("one button must give a single trigger"),
    }
}

#[test]
fn combo_trigger_keeps_all_releases() {
    let (_, m) = parse_macro("MouseLeft + MouseRight {\n press MouseLeft\n}").unwrap();
    match &m.trigger {
        Trigger::Combo(evs) => {
            assert_eq!(
                *evs,
                vec![
                    Event::ButtonRelease(Button::Left),
                    Event::ButtonRelease(Button::Right),
                ]
            );
        }
        Trigger::Single(_) => panic!("two buttons must give a combo trigger"),
    }
}

#[test]
fn macro_actions_are_flattened_in_order() {
    let (_, m) = parse_macro("Mouse1 {\n move to 10,20\n press MouseLeft\n wait 1\n}").unwrap();
    assert_eq!(
        m.actions,
        vec![
            Action::Emit(Event::MouseMove { x: 10, y: 20 }),
            Action::Emit(Event::ButtonPress(Button::Left)),
            Action::Emit(Event::ButtonRelease(Button::Left)),
            Action::Wait(1000),
        ]
    );
}

#[test]
fn file_with_two_macros_keeps_order() {
    let file = "Mouse1 {\n press MouseLeft\n}\nMouse2 {\n press MouseRight\n}";
    let macros = parse_file(file).unwrap();
    assert_eq!(macros.len(), 2);
    match &macros[0].trigger {
        Trigger::Single(ev) => assert_eq!(*ev, Event::ButtonRelease(Button::Other(1))),
        _ => panic!("single trigger expected"),
    }
    match &macros[1].trigger {
        Trigger::Single(ev) => assert_eq!(*ev, Event::ButtonRelease(Button::Other(2))),
        _ => panic!("single trigger expected"),
    }
}

#[test]
fn malformed_second_macro_rejects_whole_file() {
    // One well-formed macro followed by one malformed macro: nothing loads.
    let file = "Mouse1 {\n press MouseLeft\n}\nMouse2 {\n press\n}";
    assert!(parse_file(file).is_err());
}

#[test]
fn trailing_garbage_rejects_whole_file() {
    let file = "Mouse1 {\n press MouseLeft\n}zz";
    let err = parse_file(file).unwrap_err();
    assert_eq!(err.offset, file.len() - 2);
}

#[test]
fn empty_file_fails_at_start() {
    let err = parse_file("").unwrap_err();
    assert_eq!(err.offset, 0);
}

#[test]
fn whitespace_only_file_fails_past_whitespace() {
    let err = parse_file("  \n ").unwrap_err();
    assert_eq!(err.offset, 4);
}

#[test]
fn macro_without_actions_fails() {
    assert!(parse_file("Mouse1 { }").is_err());
}

#[test]
fn trailing_whitespace_is_permitted() {
    let macros = parse_file("Mouse1 {\n press MouseLeft\n}\n  \n").unwrap();
    assert_eq!(macros.len(), 1);
}
