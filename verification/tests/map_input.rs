use hid_remap::device_mapping::{DeviceAnalogInput, DeviceDigitalInput};
use hid_remap::input::Input;
use hid_remap::map_input::MapInput;

fn scale(min: f32, max: f32) -> [u32; 256] {
    let mut table = [0u32; 256];
    for value in 0..256usize {
        table[value] = (value as f32 * (max - min) / 256.0 + min).to_bits();
    }
    table
}

fn digital(name: &str, uid: u16, index: u8, mask: u8) -> DeviceDigitalInput {
    DeviceDigitalInput { name: name.to_owned(), uid, index, mask }
}

fn analog(name: &str, uid: u16, index: u8) -> DeviceAnalogInput {
    DeviceAnalogInput { name: name.to_owned(), uid, index, output: scale(-1.0, 1.0) }
}

fn axis(uid: u16, value: f32, old_value: f32) -> Input {
    Input::Axis(uid, value.to_bits(), old_value.to_bits())
}

#[test]
fn new_mapper_reports_nothing_for_an_idle_report() {
    let mut mapper = MapInput::new(0, 0);
    assert_eq!(mapper.generate_input(&[], &[], &[0u8; 8]), Vec::<Input>::new());
    let mut mapper = MapInput::new(2, 1);
    let digitals = [digital("a", 0, 0, 1), digital("b", 1, 0, 2)];
    let analogs = [analog("x", 2, 1)];
    assert_eq!(mapper.generate_input(&digitals, &analogs, &[0, 0]), Vec::<Input>::new());
}

#[test]
fn a_press_and_an_axis_change_are_reported_in_order() {
    let digitals = [digital("fire", 0, 3, 0x01)];
    let analogs = [analog("x", 1, 4)];
    let mut mapper = MapInput::new(1, 1);
    assert_eq!(
        mapper.generate_input(&digitals, &analogs, &[9, 9, 9, 0x00, 0, 9, 9, 9]),
        Vec::<Input>::new()
    );
    assert_eq!(
        mapper.generate_input(&digitals, &analogs, &[9, 9, 9, 0x01, 128, 9, 9, 9]),
        vec![Input::ButtonDown(0), axis(1, 0.0, -1.0)]
    );
    assert_eq!(
        mapper.generate_input(&digitals, &analogs, &[7, 7, 7, 0x00, 0, 7, 7, 7]),
        vec![Input::ButtonUp(0), axis(1, -1.0, 0.0)]
    );
}

#[test]
fn a_held_button_is_reported_once() {
    let digitals = [digital("fire", 5, 0, 0x10)];
    let mut mapper = MapInput::new(1, 0);
    assert_eq!(mapper.generate_input(&digitals, &[], &[0x10]), vec![Input::ButtonDown(5)]);
    assert_eq!(mapper.generate_input(&digitals, &[], &[0x30]), Vec::<Input>::new());
    assert_eq!(mapper.generate_input(&digitals, &[], &[0xff]), Vec::<Input>::new());
    assert_eq!(mapper.generate_input(&digitals, &[], &[0xef]), vec![Input::ButtonUp(5)]);
    assert_eq!(mapper.generate_input(&digitals, &[], &[0x00]), Vec::<Input>::new());
    assert_eq!(mapper.generate_input(&digitals, &[], &[0x10]), vec![Input::ButtonDown(5)]);
}

#[test]
fn presses_and_releases_of_each_button_take_turns() {
    let digitals = [digital("a", 0, 0, 0x01), digital("b", 1, 0, 0x02), digital("c", 2, 1, 0x80)];
    let analogs = [analog("x", 3, 2)];
    let mut mapper = MapInput::new(3, 1);
    let mut events = Vec::new();
    let mut seed: u32 = 12345;
    for _ in 0..500 {
        let mut report = [0u8; 3];
        for byte in report.iter_mut() {
            seed = seed.wrapping_mul(1664525).wrapping_add(1013904223);
            *byte = (seed >> 24) as u8;
        }
        events.extend(mapper.generate_input(&digitals, &analogs, &report));
    }
    for uid in 0..3u16 {
        let mut pressed = false;
        let mut seen = 0;
        for event in &events {
            if *event == Input::ButtonDown(uid) {
                assert!(!pressed);
                pressed = true;
                seen += 1;
            } else if *event == Input::ButtonUp(uid) {
                assert!(pressed);
                pressed = false;
                seen += 1;
            }
        }
        assert!(seen > 100);
    }
}

#[test]
fn digital_events_come_before_analog_events() {
    let digitals = [digital("a", 0, 2, 0x01), digital("b", 1, 0, 0x01)];
    let analogs = [analog("x", 2, 1), analog("y", 3, 0)];
    let mut mapper = MapInput::new(2, 2);
    assert_eq!(
        mapper.generate_input(&digitals, &analogs, &[0x01, 0x40, 0x01]),
        vec![
            Input::ButtonDown(0),
            Input::ButtonDown(1),
            axis(2, -0.5, -1.0),
            axis(3, -0.9921875, -1.0),
        ]
    );
}

#[test]
fn any_change_of_the_raw_byte_is_an_axis_event() {
    let analogs = [analog("x", 9, 0)];
    let mut mapper = MapInput::new(0, 1);
    assert_eq!(mapper.generate_input(&[], &analogs, &[1]), vec![axis(9, -0.9921875, -1.0)]);
    assert_eq!(mapper.generate_input(&[], &analogs, &[1]), Vec::<Input>::new());
    assert_eq!(mapper.generate_input(&[], &analogs, &[255]), vec![axis(9, 0.9921875, -0.9921875)]);
    assert_eq!(mapper.generate_input(&[], &analogs, &[0]), vec![axis(9, -1.0, 0.9921875)]);
}

#[test]
fn a_mapper_may_remember_more_inputs_than_it_is_given() {
    let digitals = [digital("a", 0, 0, 0x01)];
    let mut mapper = MapInput::new(4, 4);
    assert_eq!(mapper.generate_input(&digitals, &[], &[0x01]), vec![Input::ButtonDown(0)]);
}
