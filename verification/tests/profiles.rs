use hid_remap::action::{Action, KeyCommand};
use hid_remap::device_manager::{dispatch, find_match};
use hid_remap::device_mapping::DeviceInputUid;
use hid_remap::error::{ConfigError, ConfigErrorKind};
use hid_remap::input::Input;
use hid_remap::profile_definition::{
    build_output, find_input, numbered_name, AxisDef, DeviceDef, Mode, ModeDef, Profile, ProfileDef,
    Profiles, SingleDef, SinglesDef,
};

fn inputs() -> Vec<DeviceInputUid> {
    vec![
        DeviceInputUid::Digital("Stick".to_owned(), "trigger".to_owned(), 0),
        DeviceInputUid::Digital("Stick".to_owned(), "b1".to_owned(), 1),
        DeviceInputUid::Digital("Stick".to_owned(), "b2".to_owned(), 2),
        DeviceInputUid::Digital("Stick".to_owned(), "b3".to_owned(), 3),
        DeviceInputUid::Analog("Stick".to_owned(), "x".to_owned(), 4),
        DeviceInputUid::Digital("Pad".to_owned(), "trigger".to_owned(), 5),
        DeviceInputUid::Analog("Pad".to_owned(), "x".to_owned(), 6),
    ]
}

fn single(button: &str, cmd: &str) -> SingleDef {
    SingleDef { button: button.to_owned(), cmd: cmd.to_owned() }
}

fn singles(button: &str, index: u8, cmds: &[&str]) -> SinglesDef {
    SinglesDef {
        button: button.to_owned(),
        index,
        cmds: cmds.iter().map(|cmd| cmd.to_string()).collect(),
    }
}

fn axis(name: &str, simple: &[&str]) -> AxisDef {
    AxisDef { axis: name.to_owned(), simple: simple.iter().map(|key| key.to_string()).collect() }
}

fn device(
    name: &str,
    single: Vec<SingleDef>,
    singles: Vec<SinglesDef>,
    axes: Vec<AxisDef>,
) -> DeviceDef {
    DeviceDef { device: name.to_owned(), single, singles, axes }
}

fn mode(name: &str, devices: Vec<DeviceDef>) -> ModeDef {
    ModeDef { name: name.to_owned(), devices }
}

fn profile(name: &str, modes: Vec<ModeDef>) -> ProfileDef {
    ProfileDef { name: name.to_owned(), pattern: format!("{}*", name), modes }
}

fn key(name: &str) -> Action {
    Action::Key(name.to_owned())
}

fn named(names: &[&str]) -> Profiles {
    Profiles {
        profiles: names
            .iter()
            .map(|name| Profile {
                name: name.to_string(),
                pattern: String::new(),
                modes: vec![Mode { name: "Default".to_owned(), output: vec![key(name)] }],
            })
            .collect(),
    }
}

#[test]
fn a_numbered_name_is_the_prefix_and_the_number() {
    assert_eq!(numbered_name(&"b".to_owned(), 0), "b0");
    assert_eq!(numbered_name(&"b".to_owned(), 7), "b7");
    assert_eq!(numbered_name(&"Button ".to_owned(), 10), "Button 10");
    assert_eq!(numbered_name(&"".to_owned(), 99), "99");
    assert_eq!(numbered_name(&"x".to_owned(), 100), "x100");
    assert_eq!(numbered_name(&"x".to_owned(), 205), "x205");
    assert_eq!(numbered_name(&"x".to_owned(), 255), "x255");
    for number in 0..=255u8 {
        assert_eq!(numbered_name(&"n".to_owned(), number), format!("n{}", number));
    }
}

#[test]
fn an_input_is_found_by_device_and_name() {
    let inputs = inputs();
    assert_eq!(find_input(&inputs, &"Stick".to_owned(), &"trigger".to_owned()), Some(0));
    assert_eq!(find_input(&inputs, &"Pad".to_owned(), &"trigger".to_owned()), Some(5));
    assert_eq!(find_input(&inputs, &"Pad".to_owned(), &"x".to_owned()), Some(6));
    assert_eq!(find_input(&inputs, &"Pad".to_owned(), &"b1".to_owned()), None);
    assert_eq!(find_input(&inputs, &"stick".to_owned(), &"trigger".to_owned()), None);
    assert_eq!(find_input(&Vec::new(), &"Stick".to_owned(), &"trigger".to_owned()), None);
}

#[test]
fn the_last_of_two_inputs_of_one_name_is_found() {
    let inputs = vec![
        DeviceInputUid::Digital("D".to_owned(), "a".to_owned(), 0),
        DeviceInputUid::Analog("D".to_owned(), "a".to_owned(), 1),
    ];
    assert_eq!(find_input(&inputs, &"D".to_owned(), &"a".to_owned()), Some(1));
}

#[test]
fn slots_that_a_mode_does_not_bind_do_nothing() {
    let definition = mode("Default", vec![device("Stick", vec![single("b2", "x")], vec![], vec![])]);
    assert_eq!(
        build_output(&inputs(), &definition),
        Ok(vec![
            Action::NoOp,
            Action::NoOp,
            key("x"),
            Action::NoOp,
            Action::NoOp,
            Action::NoOp,
            Action::NoOp
        ])
    );
    assert_eq!(build_output(&inputs(), &mode("Idle", vec![])), Ok(vec![Action::NoOp; 7]));
    assert_eq!(build_output(&Vec::new(), &mode("Idle", vec![])), Ok(Vec::new()));
}

#[test]
fn a_mode_binds_buttons_numbered_buttons_and_axes() {
    let definition = mode(
        "Default",
        vec![
            device(
                "Stick",
                vec![single("trigger", "space")],
                vec![singles("b", 1, &["a", "b", "c"])],
                vec![axis("x", &["Left", "Right"])],
            ),
            device("Pad", vec![single("trigger", "Return")], vec![], vec![axis("x", &["q", "w", "e"])]),
        ],
    );
    assert_eq!(
        build_output(&inputs(), &definition),
        Ok(vec![
            key("space"),
            key("a"),
            key("b"),
            key("c"),
            Action::Axis("Left".to_owned(), "Right".to_owned()),
            key("Return"),
            Action::Axis("w".to_owned(), "e".to_owned()),
        ])
    );
}

#[test]
fn a_later_binding_overwrites_an_earlier_one() {
    let definition = mode(
        "Default",
        vec![
            device("Stick", vec![single("b1", "first"), single("b1", "second")], vec![], vec![]),
            device("Stick", vec![], vec![singles("b", 1, &["third"])], vec![]),
        ],
    );
    assert_eq!(build_output(&inputs(), &definition).unwrap()[1], key("third"));
}

#[test]
fn an_unknown_input_is_rejected() {
    let unknown_button = mode("M", vec![device("Stick", vec![single("b9", "x")], vec![], vec![])]);
    assert_eq!(build_output(&inputs(), &unknown_button), Err(ConfigErrorKind::UnknownInput));
    let unknown_device = mode("M", vec![device("Wheel", vec![single("b1", "x")], vec![], vec![])]);
    assert_eq!(build_output(&inputs(), &unknown_device), Err(ConfigErrorKind::UnknownInput));
    let run_too_long = mode("M", vec![device("Stick", vec![], vec![singles("b", 2, &["x", "y", "z"])], vec![])]);
    assert_eq!(build_output(&inputs(), &run_too_long), Err(ConfigErrorKind::UnknownInput));
    let unknown_axis = mode("M", vec![device("Stick", vec![], vec![], vec![axis("y", &["a", "b"])])]);
    assert_eq!(build_output(&inputs(), &unknown_axis), Err(ConfigErrorKind::UnknownInput));
}

#[test]
fn an_axis_with_fewer_than_two_keys_is_rejected() {
    let one = mode("M", vec![device("Stick", vec![], vec![], vec![axis("x", &["a"])])]);
    assert_eq!(build_output(&inputs(), &one), Err(ConfigErrorKind::MissingAxisKeys));
    let none = mode("M", vec![device("Stick", vec![], vec![], vec![axis("x", &[])])]);
    assert_eq!(build_output(&inputs(), &none), Err(ConfigErrorKind::MissingAxisKeys));
    let unknown = mode("M", vec![device("Stick", vec![], vec![], vec![axis("y", &[])])]);
    assert_eq!(build_output(&inputs(), &unknown), Err(ConfigErrorKind::UnknownInput));
}

#[test]
fn a_button_number_above_255_is_rejected() {
    let mut listed = inputs();
    listed.push(DeviceInputUid::Digital("Stick".to_owned(), "b255".to_owned(), 7));
    let fits = mode("M", vec![device("Stick", vec![], vec![singles("b", 255, &["x"])], vec![])]);
    assert_eq!(build_output(&listed, &fits).unwrap()[7], key("x"));
    let over = mode("M", vec![device("Stick", vec![], vec![singles("b", 255, &["x", "y"])], vec![])]);
    assert_eq!(build_output(&listed, &over), Err(ConfigErrorKind::ButtonNumberTooLarge));
}

#[test]
fn an_input_beyond_the_table_is_rejected() {
    let listed = vec![DeviceInputUid::Digital("D".to_owned(), "a".to_owned(), 1)];
    let definition = mode("M", vec![device("D", vec![single("a", "x")], vec![], vec![])]);
    assert_eq!(build_output(&listed, &definition), Err(ConfigErrorKind::InputOutsideTable));
}

#[test]
fn profiles_are_built_with_their_names_and_modes() {
    let definitions = vec![
        profile(
            "Keyboard",
            vec![
                mode("Default", vec![device("Stick", vec![single("trigger", "a")], vec![], vec![])]),
                mode("Shift", vec![device("Stick", vec![single("trigger", "A")], vec![], vec![])]),
            ],
        ),
        profile("Keypad", vec![]),
    ];
    let profiles = Profiles::new(&definitions, inputs()).unwrap();
    assert_eq!(profiles.profiles.len(), 2);
    assert_eq!(profiles.profiles[0].name, "Keyboard");
    assert_eq!(profiles.profiles[0].pattern, "Keyboard*");
    assert_eq!(profiles.profiles[0].modes.len(), 2);
    assert_eq!(profiles.profiles[0].modes[0].name, "Default");
    assert_eq!(profiles.profiles[0].modes[0].output.len(), 7);
    assert_eq!(profiles.profiles[0].modes[0].output[0], key("a"));
    assert_eq!(profiles.profiles[0].modes[1].name, "Shift");
    assert_eq!(profiles.profiles[0].modes[1].output[0], key("A"));
    assert_eq!(profiles.profiles[0].modes[1].output[1], Action::NoOp);
    assert_eq!(profiles.profiles[1].name, "Keypad");
    assert!(profiles.profiles[1].modes.is_empty());
}

#[test]
fn the_first_faulty_profile_is_reported() {
    let definitions = vec![
        profile("Fine", vec![mode("M", vec![])]),
        profile(
            "Axis",
            vec![
                mode("M", vec![]),
                mode("N", vec![device("Stick", vec![], vec![], vec![axis("x", &["a"])])]),
                mode("O", vec![device("Stick", vec![single("b9", "x")], vec![], vec![])]),
            ],
        ),
        profile("Late", vec![mode("M", vec![device("Nowhere", vec![single("b", "x")], vec![], vec![])])]),
    ];
    assert_eq!(
        Profiles::new(&definitions, inputs()).err(),
        Some(ConfigError { kind: ConfigErrorKind::MissingAxisKeys, position: 1 })
    );
    assert!(Profiles::new(&Vec::new(), inputs()).unwrap().profiles.is_empty());
}

#[test]
fn the_first_name_that_begins_with_the_selector_matches() {
    let names = vec!["keyboard".to_owned(), "keypad".to_owned(), "mouse".to_owned()];
    assert_eq!(find_match(&names, "key"), Some(0));
    assert_eq!(find_match(&names, "keyp"), Some(1));
    assert_eq!(find_match(&names, "mouse"), Some(2));
    assert_eq!(find_match(&names, ""), Some(0));
    assert_eq!(find_match(&names, "zz"), None);
    assert_eq!(find_match(&names, "keyboards"), None);
    assert_eq!(find_match(&names, "Key"), None);
    assert_eq!(find_match(&names, "eyboard"), None);
    assert_eq!(find_match(&Vec::new(), "key"), None);
    assert_eq!(find_match(&Vec::new(), ""), None);
}

#[test]
fn a_selector_picks_the_first_profile_whose_name_begins_with_it() {
    let profiles = named(&["Keyboard", "Keypad"]);
    assert_eq!(profiles.select(Some("key")), 0);
    assert_eq!(profiles.select(Some("zz")), 0);
    assert_eq!(profiles.select(None), 0);
    assert_eq!(profiles.select(Some("keyp")), 1);
    assert_eq!(profiles.select(Some("KEYP")), 1);
    assert_eq!(profiles.select(Some("KeyPad")), 1);
    assert_eq!(profiles.select(Some("keypads")), 0);
    assert_eq!(profiles.select(Some("")), 0);
    assert_eq!(profiles.output(Some("key")), Some(&vec![key("Keyboard")]));
    assert_eq!(profiles.output(Some("zz")), Some(&vec![key("Keyboard")]));
    assert_eq!(profiles.output(None), Some(&vec![key("Keyboard")]));
    assert_eq!(profiles.output(Some("Keyp")), Some(&vec![key("Keypad")]));
}

#[test]
fn no_table_is_picked_where_a_mode_is_missing() {
    let none = Profiles { profiles: vec![] };
    assert_eq!(none.select(Some("a")), 0);
    assert_eq!(none.output(Some("a")), None);
    assert_eq!(none.output(None), None);
    let mut profiles = named(&["First", "Second"]);
    profiles.profiles[1].modes.clear();
    assert_eq!(profiles.output(Some("f")), Some(&vec![key("First")]));
    assert_eq!(profiles.output(Some("s")), None);
    let mut profiles = named(&["First", "Second"]);
    profiles.profiles[0].modes.clear();
    assert_eq!(profiles.output(Some("s")), None);
    assert_eq!(profiles.output(None), None);
}

#[test]
fn an_event_is_dispatched_to_the_action_of_its_input() {
    let output = vec![key("a"), Action::Axis("l".to_owned(), "r".to_owned()), Action::NoOp];
    assert_eq!(dispatch(&output, Input::ButtonDown(0)), vec![KeyCommand::Down("a".to_owned())]);
    assert_eq!(dispatch(&output, Input::ButtonUp(0)), vec![KeyCommand::Up("a".to_owned())]);
    assert_eq!(dispatch(&output, Input::ButtonDown(2)), Vec::<KeyCommand>::new());
    assert_eq!(
        dispatch(&output, Input::Axis(1, (-0.75f32).to_bits(), 0.0f32.to_bits())),
        vec![KeyCommand::Down("l".to_owned())]
    );
    assert_eq!(
        dispatch(&output, Input::Axis(1, 0.75f32.to_bits(), (-0.75f32).to_bits())),
        vec![KeyCommand::Up("l".to_owned()), KeyCommand::Down("r".to_owned())]
    );
    assert_eq!(
        dispatch(&output, Input::Axis(0, 0.75f32.to_bits(), 0.0f32.to_bits())),
        vec![KeyCommand::Down("a".to_owned())]
    );
    assert_eq!(dispatch(&output, Input::ButtonDown(1)), vec![KeyCommand::Down("r".to_owned())]);
    assert_eq!(dispatch(&output, Input::ButtonUp(1)), vec![KeyCommand::Up("r".to_owned())]);
}
