use crate::level::{
    above_half, at_least_minus_half, at_most_half, below_minus_half, is_above_half,
    is_at_least_minus_half, is_at_most_half, is_below_minus_half, is_nan, lemma_sides_exclude,
};
use vstd::prelude::*;

verus! {

/// What an input of a device does in a mode of a profile.
#[derive(Debug, Clone, PartialEq, Eq)]
pub enum Action {
    /// Nothing.
    NoOp,
    /// Holds the named key while the level of the input is above one half.
    Key(String),
    /// Holds the first key while the level is below minus one half, and the second key while
    /// it is above one half.
    Axis(String, String),
}

/// What an [`Action`] holds, as plain values.
pub enum ActionView {
    NoOp,
    Key(Seq<char>),
    Axis(Seq<char>, Seq<char>),
}

impl View for Action {
    type V = ActionView;

    open spec fn view(&self) -> ActionView {
        match self {
            Action::NoOp => ActionView::NoOp,
            Action::Key(key) => ActionView::Key(key@),
            Action::Axis(negative, positive) => ActionView::Axis(negative@, positive@),
        }
    }
}

/// The views of a sequence of actions.
pub open spec fn action_views(actions: Seq<Action>) -> Seq<ActionView> {
    actions.map_values(|action: Action| action@)
}

/// What is asked of the facility that injects key events.
#[derive(Debug, Clone, PartialEq, Eq)]
pub enum KeyCommand {
    /// Press the named key.
    Down(String),
    /// Release the named key.
    Up(String),
}

/// What a [`KeyCommand`] holds, as plain values.
pub enum KeyCommandView {
    Down(Seq<char>),
    Up(Seq<char>),
}

impl View for KeyCommand {
    type V = KeyCommandView;

    open spec fn view(&self) -> KeyCommandView {
        match self {
            KeyCommand::Down(key) => KeyCommandView::Down(key@),
            KeyCommand::Up(key) => KeyCommandView::Up(key@),
        }
    }
}

/// The views of a sequence of key commands.
pub open spec fn command_views(commands: Seq<KeyCommand>) -> Seq<KeyCommandView> {
    commands.map_values(|command: KeyCommand| command@)
}

/// What happens to a key of an axis: `Some(false)`, it is released, where it was held and
/// the level has come back inside the threshold; `Some(true)`, it is pressed, where it was
/// not held and the level has gone beyond the threshold; `None`, nothing.
pub open spec fn key_change(held: bool, inside: bool, beyond: bool) -> Option<bool> {
    if held && inside {
        Some(false)
    } else if !held && beyond {
        Some(true)
    } else {
        None
    }
}

/// What happens to the key of the negative side as the level goes from `old_input` to `input`.
pub open spec fn negative_change(input: u32, old_input: u32) -> Option<bool> {
    key_change(below_minus_half(old_input), at_least_minus_half(input), below_minus_half(input))
}

/// What happens to the key of the positive side as the level goes from `old_input` to `input`.
pub open spec fn positive_change(input: u32, old_input: u32) -> Option<bool> {
    key_change(above_half(old_input), at_most_half(input), above_half(input))
}

/// The command that carries out a change of the named key, if there is one.
pub open spec fn change_commands(key: Seq<char>, change: Option<bool>) -> Seq<KeyCommandView> {
    match change {
        Some(true) => seq![KeyCommandView::Down(key)],
        Some(false) => seq![KeyCommandView::Up(key)],
        None => Seq::empty(),
    }
}

/// Whether a key is held after a change, where it was `held` before.
pub open spec fn held_after(held: bool, change: Option<bool>) -> bool {
    match change {
        Some(pressed) => pressed,
        None => held,
    }
}

impl ActionView {
    /// The key commands of the action as the level of its input goes from `old_input` to
    /// `input`.
    pub open spec fn commands(self, input: u32, old_input: u32) -> Seq<KeyCommandView> {
        match self {
            ActionView::NoOp => Seq::empty(),
            ActionView::Key(key) => if above_half(input) {
                seq![KeyCommandView::Down(key)]
            } else {
                seq![KeyCommandView::Up(key)]
            },
            ActionView::Axis(negative, positive) => change_commands(
                negative,
                negative_change(input, old_input),
            ) + change_commands(positive, positive_change(input, old_input)),
        }
    }
}

impl Action {
    /// The key commands of the action as the level of its input goes from `old_input` to
    /// `input`, in the order in which they are to be carried out. A key is pressed where the
    /// level is greater than 0.5 and released otherwise. Each side of an axis has its own
    /// threshold, the negative side first: its key is released where the old level was beyond
    /// the threshold and the new one is not, and pressed where the new level is beyond it and
    /// the old one was not.
    pub fn execute(&self, input: u32, old_input: u32) -> (commands: Vec<KeyCommand>)
        ensures
            command_views(commands@) == self@.commands(input, old_input),
    {
        let mut commands: Vec<KeyCommand> = Vec::new();
        match self {
            Action::NoOp => {},
            Action::Key(key) => {
                if is_above_half(input) {
                    commands.push(KeyCommand::Down(key.clone()));
                } else {
                    commands.push(KeyCommand::Up(key.clone()));
                }
            },
            Action::Axis(negative, positive) => {
                let negative_held = is_below_minus_half(old_input);
                let positive_held = is_above_half(old_input);
                if negative_held && is_at_least_minus_half(input) {
                    commands.push(KeyCommand::Up(negative.clone()));
                } else if !negative_held && is_below_minus_half(input) {
                    commands.push(KeyCommand::Down(negative.clone()));
                }
                if positive_held && is_at_most_half(input) {
                    commands.push(KeyCommand::Up(positive.clone()));
                } else if !positive_held && is_above_half(input) {
                    commands.push(KeyCommand::Down(positive.clone()));
                }
            },
        }
        assert(command_views(commands@) =~= self@.commands(input, old_input));
        commands
    }
}

/// Where each key of an axis is held as the old level says, held on the negative side below
/// -0.5 and on the positive side above 0.5, a change to a level that is a number leaves each
/// key held as the new level says, and never both.
pub proof fn lemma_axis_follows_level(input: u32, old_input: u32)
    requires
        !is_nan(input),
    ensures
        held_after(below_minus_half(old_input), negative_change(input, old_input))
            == below_minus_half(input),
        held_after(above_half(old_input), positive_change(input, old_input)) == above_half(input),
        !(below_minus_half(input) && above_half(input)),
{
    lemma_sides_exclude(input);
}

} // verus!
