use ps5_emulator::screens::{next_screen, Screen, ScreenEvent};

#[test]
fn screens_follow_home_loading_controls_game() {
    let s = next_screen(Screen::Home, ScreenEvent::GameChosen);
    assert_eq!(s, Screen::Loading);
    let s = next_screen(s, ScreenEvent::LoadingFinished);
    assert_eq!(s, Screen::Controls);
    let s = next_screen(s, ScreenEvent::ControllerChosen);
    assert_eq!(s, Screen::Game);
}

#[test]
fn screens_ignore_events_out_of_turn() {
    assert_eq!(next_screen(Screen::Home, ScreenEvent::LoadingFinished), Screen::Home);
    assert_eq!(next_screen(Screen::Home, ScreenEvent::ControllerChosen), Screen::Home);
    assert_eq!(next_screen(Screen::Loading, ScreenEvent::GameChosen), Screen::Loading);
    assert_eq!(next_screen(Screen::Controls, ScreenEvent::LoadingFinished), Screen::Controls);
    assert_eq!(next_screen(Screen::Game, ScreenEvent::GameChosen), Screen::Game);
    assert_eq!(next_screen(Screen::Game, ScreenEvent::ControllerChosen), Screen::Game);
}
