//! The flow between the emulator's screens: home, loading, controller choice
//! and game.
use vstd::prelude::*;

verus! {

/// The screen on show.
#[derive(Clone, Copy, Debug, PartialEq, Eq, Structural)]
pub enum Screen {
    Home,
    Loading,
    Controls,
    Game,
}

/// What happened on the screen on show.
#[derive(Clone, Copy, Debug, PartialEq, Eq, Structural)]
pub enum ScreenEvent {
    /// A game was picked on the home screen.
    GameChosen,
    /// The loading screen ran to its end.
    LoadingFinished,
    /// A controller was confirmed.
    ControllerChosen,
}

/// The screen after `event` on `screen`: home goes to loading when a game is
/// picked, loading to the controller choice when it ends, and the controller
/// choice to the game when a controller is confirmed. Any other event leaves
/// the screen as it is.
pub open spec fn screen_after(screen: Screen, event: ScreenEvent) -> Screen {
    match (screen, event) {
        (Screen::Home, ScreenEvent::GameChosen) => Screen::Loading,
        (Screen::Loading, ScreenEvent::LoadingFinished) => Screen::Controls,
        (Screen::Controls, ScreenEvent::ControllerChosen) => Screen::Game,
        _ => screen,
    }
}

/// The next screen after `event` on `screen`.
pub fn next_screen(screen: Screen, event: ScreenEvent) -> (next: Screen)
    ensures
        next == screen_after(screen, event),
{
    match (screen, event) {
        (Screen::Home, ScreenEvent::GameChosen) => Screen::Loading,
        (Screen::Loading, ScreenEvent::LoadingFinished) => Screen::Controls,
        (Screen::Controls, ScreenEvent::ControllerChosen) => Screen::Game,
        _ => screen,
    }
}

/// The screens only go forward, one step per event: an event leaves the screen
/// as it is or moves it from home to loading, from loading to the controller
/// choice, or from the controller choice to the game; the game is never left.
pub proof fn law_screens_step_forward(screen: Screen, event: ScreenEvent)
    ensures
        ({
            let next = screen_after(screen, event);
            ||| next == screen
            ||| (screen == Screen::Home && next == Screen::Loading)
            ||| (screen == Screen::Loading && next == Screen::Controls)
            ||| (screen == Screen::Controls && next == Screen::Game)
        }),
        screen == Screen::Game ==> screen_after(screen, event) == Screen::Game,
{
}

} // verus!
