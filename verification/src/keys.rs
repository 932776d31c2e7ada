//! Keyboard keys and the commands they stand for.

use vstd::prelude::*;
use bracket_lib::prelude::VirtualKeyCode;

verus! {

/// The key codes of the terminal backend. Only the variants' names are read.
#[verifier::external_type_specification]
pub struct ExVirtualKeyCode(VirtualKeyCode);

/// What the player asks of one tick.
#[derive(Clone, Copy, Debug, PartialEq, Eq, Structural)]
pub enum Command {
    /// Move the player-controlled entities by this much.
    Move { dx: i32, dy: i32 },
    /// Stop after this tick.
    Quit,
    /// Nothing was asked.
    Idle,
}

impl Command {
    /// The step that the command asks for: none unless it is a move.
    pub open spec fn delta(self) -> (int, int) {
        match self {
            Command::Move { dx, dy } => (dx as int, dy as int),
            _ => (0, 0),
        }
    }

    /// The command moves by one cell at most in each direction.
    pub open spec fn unit_step(self) -> bool {
        -1 <= self.delta().0 <= 1 && -1 <= self.delta().1 <= 1
    }
}

/// The command that a key stands for: arrows, the numeric pad and the vi keys
/// move, the pad's corners and `y u b n` move diagonally, `q` quits, and any
/// other key asks for nothing.
pub open spec fn key_command(key: VirtualKeyCode) -> Command {
    match key {
        VirtualKeyCode::Left | VirtualKeyCode::Numpad4 | VirtualKeyCode::H => Command::Move {
            dx: -1i32,
            dy: 0i32,
        },
        VirtualKeyCode::Right | VirtualKeyCode::Numpad6 | VirtualKeyCode::L => Command::Move {
            dx: 1i32,
            dy: 0i32,
        },
        VirtualKeyCode::Up | VirtualKeyCode::Numpad8 | VirtualKeyCode::K => Command::Move {
            dx: 0i32,
            dy: -1i32,
        },
        VirtualKeyCode::Down | VirtualKeyCode::Numpad2 | VirtualKeyCode::J => Command::Move {
            dx: 0i32,
            dy: 1i32,
        },
        VirtualKeyCode::Numpad1 | VirtualKeyCode::B => Command::Move { dx: -1i32, dy: 1i32 },
        VirtualKeyCode::Numpad3 | VirtualKeyCode::N => Command::Move { dx: 1i32, dy: 1i32 },
        VirtualKeyCode::Numpad7 | VirtualKeyCode::Y => Command::Move { dx: -1i32, dy: -1i32 },
        VirtualKeyCode::Numpad9 | VirtualKeyCode::U => Command::Move { dx: 1i32, dy: -1i32 },
        VirtualKeyCode::Q => Command::Quit,
        _ => Command::Idle,
    }
}

/// The command for what the keyboard reported this tick: nothing asks for nothing.
pub fn command_for_key(key: Option<VirtualKeyCode>) -> (c: Command)
    ensures
        c == match key {
            Some(k) => key_command(k),
            None => Command::Idle,
        },
        c.unit_step(),
{
    match key {
        None => Command::Idle,
        Some(k) => match k {
            VirtualKeyCode::Left | VirtualKeyCode::Numpad4 | VirtualKeyCode::H => Command::Move {
                dx: -1,
                dy: 0,
            },
            VirtualKeyCode::Right | VirtualKeyCode::Numpad6 | VirtualKeyCode::L => Command::Move {
                dx: 1,
                dy: 0,
            },
            VirtualKeyCode::Up | VirtualKeyCode::Numpad8 | VirtualKeyCode::K => Command::Move {
                dx: 0,
                dy: -1,
            },
            VirtualKeyCode::Down | VirtualKeyCode::Numpad2 | VirtualKeyCode::J => Command::Move {
                dx: 0,
                dy: 1,
            },
            VirtualKeyCode::Numpad1 | VirtualKeyCode::B => Command::Move { dx: -1, dy: 1 },
            VirtualKeyCode::Numpad3 | VirtualKeyCode::N => Command::Move { dx: 1, dy: 1 },
            VirtualKeyCode::Numpad7 | VirtualKeyCode::Y => Command::Move { dx: -1, dy: -1 },
            VirtualKeyCode::Numpad9 | VirtualKeyCode::U => Command::Move { dx: 1, dy: -1 },
            VirtualKeyCode::Q => Command::Quit,
            _ => Command::Idle,
        },
    }
}

} // verus!
