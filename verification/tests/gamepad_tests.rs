use ps5_emulator::audio::{AudioLoader, SoundType};
use ps5_emulator::gamepad::{choose_controller, ControllerType, FaceClicks, GamepadScreen, ShoulderClicks};

#[test]
fn face_clicks_toggle() {
    let mut g = GamepadScreen::new(ControllerType::DualSense);
    assert!(!g.state.triangle);
    g.render_face_buttons(FaceClicks { triangle: true, square: false, circle: true, cross: false });
    assert!(g.state.triangle);
    assert!(g.state.circle);
    assert!(!g.state.square);
    g.render_face_buttons(FaceClicks { triangle: true, square: false, circle: true, cross: false });
    assert!(!g.state.triangle);
    assert!(!g.state.circle);
    assert_eq!(g.controller_type, ControllerType::DualSense);
}

#[test]
fn shoulder_clicks_toggle() {
    let mut g = GamepadScreen::new(ControllerType::Xbox);
    g.render_shoulders(ShoulderClicks { l2: true, l1: false, r1: true, r2: false });
    assert!(g.state.l2 && g.state.r1 && !g.state.l1 && !g.state.r2);
    g.render_shoulders(ShoulderClicks { l2: false, l1: true, r1: true, r2: true });
    assert!(g.state.l2 && g.state.l1 && !g.state.r1 && g.state.r2);
}

#[test]
fn mapper_state_replaces_buttons() {
    let mut g = GamepadScreen::new(ControllerType::Gamepad);
    let mut s = g.state;
    s.start = true;
    s.cross = true;
    g.update_from_mapper(s);
    assert_eq!(g.state, s);
}

#[test]
fn audio_kinds() {
    let _loader = AudioLoader::new();
    assert_eq!(AudioLoader::new(), AudioLoader);
    assert_ne!(SoundType::Music, SoundType::Voice);
    assert_eq!(SoundType::UI.clone(), SoundType::UI);
}

#[test]
fn controller_choice_keeps_the_last_card_clicked() {
    assert_eq!(choose_controller(None, [false, false, false], false), (None, None));
    assert_eq!(choose_controller(None, [true, false, false], false), (Some(ControllerType::DualSense), None));
    assert_eq!(choose_controller(None, [true, true, false], false), (Some(ControllerType::DualShock), None));
    assert_eq!(
        choose_controller(Some(ControllerType::DualSense), [false, false, true], false),
        (Some(ControllerType::Xbox), None)
    );
    assert_eq!(
        choose_controller(Some(ControllerType::DualShock), [false, false, false], false),
        (Some(ControllerType::DualShock), None)
    );
}

#[test]
fn controller_choice_is_made_on_confirm() {
    assert_eq!(
        choose_controller(Some(ControllerType::Xbox), [false, false, false], true),
        (Some(ControllerType::Xbox), Some(ControllerType::Xbox))
    );
    assert_eq!(choose_controller(None, [false, false, false], true), (None, None));
}
