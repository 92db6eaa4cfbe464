//! The game's screens and what the menu buttons do.

use vstd::prelude::*;

verus! {

/// The screens of the game.
#[derive(PartialEq, Eq, Structural, Clone, Copy, Debug)]
pub enum GameStates {
    MainMenu,
    HostMenu,
    JoinMenu,
    SelectMenu,
    Game,
    GameOver,
    Credits,
}

/// What the pointer is doing to a button.
#[derive(PartialEq, Eq, Structural, Clone, Copy, Debug)]
pub enum Interaction {
    Pressed,
    Hovered,
    Idle,
}

/// How a button is drawn.
#[derive(PartialEq, Eq, Structural, Clone, Copy, Debug)]
pub enum ButtonLook {
    /// The hover color with a white border.
    Hovered,
    /// The normal color with a black border.
    Normal,
    /// A clear background with a black border.
    Clear,
    /// The hover color with a black border.
    HoveredDark,
}

/// What a change of interaction with a button leads to: the screen to go
/// to, and how the button is drawn from now on.
#[derive(PartialEq, Eq, Structural, Clone, Copy, Debug)]
pub struct ButtonResponse {
    pub next_state: Option<GameStates>,
    pub look: Option<ButtonLook>,
}

/// The response to an interaction, when pressing leads to `target`: a
/// pressed button changes the screen and keeps its look; a hovered or idle
/// one changes its look only.
pub open spec fn response(interaction: Interaction, target: Option<GameStates>) -> ButtonResponse {
    match interaction {
        Interaction::Pressed => ButtonResponse { next_state: target, look: None },
        Interaction::Hovered => ButtonResponse { next_state: None, look: Some(ButtonLook::Hovered) },
        Interaction::Idle => ButtonResponse { next_state: None, look: Some(ButtonLook::Normal) },
    }
}

fn respond(interaction: Interaction, target: Option<GameStates>) -> (r: ButtonResponse)
    ensures
        r == response(interaction, target),
{
    match interaction {
        Interaction::Pressed => ButtonResponse { next_state: target, look: None },
        Interaction::Hovered => ButtonResponse { next_state: None, look: Some(ButtonLook::Hovered) },
        Interaction::Idle => ButtonResponse { next_state: None, look: Some(ButtonLook::Normal) },
    }
}

/// A button of the main menu: the host button leads to the host menu, the
/// join button to the join menu.
pub fn main_buttons(interaction: Interaction, join: bool, host: bool) -> (r: ButtonResponse)
    ensures
        r == response(
            interaction,
            if host {
                Some(GameStates::HostMenu)
            } else if join {
                Some(GameStates::JoinMenu)
            } else {
                None
            },
        ),
{
    let target = if host {
        Some(GameStates::HostMenu)
    } else if join {
        Some(GameStates::JoinMenu)
    } else {
        None
    };
    respond(interaction, target)
}

/// A button of the join menu: the play button starts the game.
pub fn join_buttons(interaction: Interaction, play: bool) -> (r: ButtonResponse)
    ensures
        r == response(interaction, if play { Some(GameStates::Game) } else { None }),
{
    respond(interaction, if play { Some(GameStates::Game) } else { None })
}

/// A button of the host menu: the play button starts the game.
pub fn host_buttons(interaction: Interaction, play: bool) -> (r: ButtonResponse)
    ensures
        r == response(interaction, if play { Some(GameStates::Game) } else { None }),
{
    respond(interaction, if play { Some(GameStates::Game) } else { None })
}

/// A button of the character selection: the start button starts the game;
/// the arrow buttons do nothing yet when pressed. Left alone, an arrow
/// button turns clear with a black border, and any other button takes the
/// hover color with a black border.
pub fn select_buttons(interaction: Interaction, play: bool, select: bool) -> (r: ButtonResponse)
    ensures
        r == match interaction {
            Interaction::Idle => ButtonResponse {
                next_state: None,
                look: Some(if select { ButtonLook::Clear } else { ButtonLook::HoveredDark }),
            },
            _ => response(interaction, if play { Some(GameStates::Game) } else { None }),
        },
{
    match interaction {
        Interaction::Idle => {
            let look = if select { ButtonLook::Clear } else { ButtonLook::HoveredDark };
            ButtonResponse { next_state: None, look: Some(look) }
        },
        _ => respond(interaction, if play { Some(GameStates::Game) } else { None }),
    }
}

} // verus!
