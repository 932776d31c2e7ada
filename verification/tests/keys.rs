use bracket_lib::prelude::VirtualKeyCode;
use tileworld::{command_for_key, Command};

fn go(dx: i32, dy: i32) -> Command {
    Command::Move { dx, dy }
}

#[test]
fn no_key_asks_for_nothing() {
    assert_eq!(command_for_key(None), Command::Idle);
}

#[test]
fn arrows_pad_and_vi_keys_move_straight() {
    for key in [VirtualKeyCode::Left, VirtualKeyCode::Numpad4, VirtualKeyCode::H] {
        assert_eq!(command_for_key(Some(key)), go(-1, 0));
    }
    for key in [VirtualKeyCode::Right, VirtualKeyCode::Numpad6, VirtualKeyCode::L] {
        assert_eq!(command_for_key(Some(key)), go(1, 0));
    }
    for key in [VirtualKeyCode::Up, VirtualKeyCode::Numpad8, VirtualKeyCode::K] {
        assert_eq!(command_for_key(Some(key)), go(0, -1));
    }
    for key in [VirtualKeyCode::Down, VirtualKeyCode::Numpad2, VirtualKeyCode::J] {
        assert_eq!(command_for_key(Some(key)), go(0, 1));
    }
}

#[test]
fn pad_corners_and_yubn_move_diagonally() {
    for key in [VirtualKeyCode::Numpad1, VirtualKeyCode::B] {
        assert_eq!(command_for_key(Some(key)), go(-1, 1));
    }
    for key in [VirtualKeyCode::Numpad3, VirtualKeyCode::N] {
        assert_eq!(command_for_key(Some(key)), go(1, 1));
    }
    for key in [VirtualKeyCode::Numpad7, VirtualKeyCode::Y] {
        assert_eq!(command_for_key(Some(key)), go(-1, -1));
    }
    for key in [VirtualKeyCode::Numpad9, VirtualKeyCode::U] {
        assert_eq!(command_for_key(Some(key)), go(1, -1));
    }
}

#[test]
fn q_quits_and_other_keys_do_nothing() {
    assert_eq!(command_for_key(Some(VirtualKeyCode::Q)), Command::Quit);
    for key in [
        VirtualKeyCode::A,
        VirtualKeyCode::Space,
        VirtualKeyCode::Escape,
        VirtualKeyCode::Numpad5,
        VirtualKeyCode::Return,
    ] {
        assert_eq!(command_for_key(Some(key)), Command::Idle);
    }
}
