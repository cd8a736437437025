use hid_remap::action::{Action, KeyCommand};
use hid_remap::level::{
    is_above_half, is_at_least_minus_half, is_at_most_half, is_below_minus_half, is_not_a_number,
    HALF, INFINITY, PRESSED, RELEASED,
};

fn down(key: &str) -> KeyCommand {
    KeyCommand::Down(key.to_owned())
}

fn up(key: &str) -> KeyCommand {
    KeyCommand::Up(key.to_owned())
}

fn axis() -> Action {
    Action::Axis("Left".to_owned(), "Right".to_owned())
}

fn run(action: &Action, input: f32, old_input: f32) -> Vec<KeyCommand> {
    action.execute(input.to_bits(), old_input.to_bits())
}

#[test]
fn the_levels_of_a_button_are_one_and_zero() {
    assert_eq!(f32::from_bits(PRESSED), 1.0);
    assert_eq!(f32::from_bits(RELEASED), 0.0);
    assert_eq!(f32::from_bits(HALF), 0.5);
    assert_eq!(f32::from_bits(INFINITY), f32::INFINITY);
}

#[test]
fn thresholds_agree_with_the_numbers() {
    let mut patterns: Vec<u32> = vec![
        0,
        1,
        0x007f_ffff,
        0x0080_0000,
        0x3eff_ffff,
        0x3f00_0000,
        0x3f00_0001,
        0x3f80_0000,
        0x7f7f_ffff,
        0x7f80_0000,
        0x7f80_0001,
        0x7fc0_0000,
        0x7fff_ffff,
        0x8000_0000,
        0x8000_0001,
        0xbeff_ffff,
        0xbf00_0000,
        0xbf00_0001,
        0xbf80_0000,
        0xff7f_ffff,
        0xff80_0000,
        0xff80_0001,
        0xffc0_0000,
        0xffff_ffff,
    ];
    let mut seed: u32 = 1;
    for _ in 0..20000 {
        seed = seed.wrapping_mul(1664525).wrapping_add(1013904223);
        patterns.push(seed);
        patterns.push((seed & 0x80ff_ffff) | 0x3f00_0000);
    }
    for value in 0..256u32 {
        patterns.push((value as f32 * 2.0 / 256.0 - 1.0).to_bits());
    }
    for bits in patterns {
        let number = f32::from_bits(bits);
        assert_eq!(is_not_a_number(bits), number.is_nan(), "{:08x}", bits);
        assert_eq!(is_above_half(bits), number > 0.5, "{:08x}", bits);
        assert_eq!(is_below_minus_half(bits), number < -0.5, "{:08x}", bits);
        assert_eq!(is_at_most_half(bits), number <= 0.5, "{:08x}", bits);
        assert_eq!(is_at_least_minus_half(bits), number >= -0.5, "{:08x}", bits);
    }
}

#[test]
fn nothing_is_done_for_no_action() {
    assert_eq!(run(&Action::NoOp, 1.0, 0.0), Vec::<KeyCommand>::new());
    assert_eq!(run(&Action::NoOp, -1.0, 1.0), Vec::<KeyCommand>::new());
}

#[test]
fn a_key_is_pressed_above_one_half_and_released_otherwise() {
    let key = Action::Key("a".to_owned());
    assert_eq!(run(&key, 1.0, 0.0), vec![down("a")]);
    assert_eq!(run(&key, 0.0, 1.0), vec![up("a")]);
    assert_eq!(run(&key, 0.5, 0.0), vec![up("a")]);
    assert_eq!(run(&key, 0.50001, 0.0), vec![down("a")]);
    assert_eq!(run(&key, -1.0, 0.0), vec![up("a")]);
    assert_eq!(run(&key, f32::NAN, 0.0), vec![up("a")]);
    assert_eq!(key.execute(PRESSED, RELEASED), vec![down("a")]);
    assert_eq!(key.execute(RELEASED, PRESSED), vec![up("a")]);
}

#[test]
fn an_axis_sweep_presses_and_releases_each_side_in_turn() {
    let values = [0.0f32, -0.6, -0.4, 0.6, 0.4];
    let mut commands = Vec::new();
    let mut left_down = false;
    let mut right_down = false;
    for step in 1..values.len() {
        for command in run(&axis(), values[step], values[step - 1]) {
            match &command {
                KeyCommand::Down(key) if key == "Left" => left_down = true,
                KeyCommand::Up(key) if key == "Left" => left_down = false,
                KeyCommand::Down(_) => right_down = true,
                KeyCommand::Up(_) => right_down = false,
            }
            assert!(!(left_down && right_down));
            commands.push(command);
        }
    }
    assert_eq!(commands, vec![down("Left"), up("Left"), down("Right"), up("Right")]);
}

#[test]
fn an_axis_that_jumps_across_releases_one_side_and_presses_the_other() {
    assert_eq!(run(&axis(), 1.0, -1.0), vec![up("Left"), down("Right")]);
    assert_eq!(run(&axis(), -1.0, 1.0), vec![down("Left"), up("Right")]);
}

#[test]
fn an_axis_does_nothing_while_it_stays_on_one_side() {
    assert_eq!(run(&axis(), -0.9, -0.6), Vec::<KeyCommand>::new());
    assert_eq!(run(&axis(), 0.9, 0.6), Vec::<KeyCommand>::new());
    assert_eq!(run(&axis(), 0.3, -0.3), Vec::<KeyCommand>::new());
    assert_eq!(run(&axis(), 0.5, -0.5), Vec::<KeyCommand>::new());
}

#[test]
fn the_thresholds_of_an_axis_lie_at_one_half() {
    assert_eq!(run(&axis(), -0.5, -0.6), vec![up("Left")]);
    assert_eq!(run(&axis(), 0.5, 0.6), vec![up("Right")]);
    assert_eq!(run(&axis(), -0.50001, -0.5), vec![down("Left")]);
    assert_eq!(run(&axis(), 0.50001, 0.5), vec![down("Right")]);
}

#[test]
fn an_axis_ignores_what_is_no_number() {
    assert_eq!(run(&axis(), f32::NAN, -1.0), Vec::<KeyCommand>::new());
    assert_eq!(run(&axis(), f32::NAN, 1.0), Vec::<KeyCommand>::new());
    assert_eq!(run(&axis(), -1.0, f32::NAN), vec![down("Left")]);
    assert_eq!(run(&axis(), 1.0, f32::NAN), vec![down("Right")]);
}
