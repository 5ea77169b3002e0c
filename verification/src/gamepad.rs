//! The on-screen gamepad: which buttons are held, and how clicks toggle them.
use vstd::prelude::*;

verus! {

/// The kind of controller shown.
#[derive(Clone, Copy, Debug, PartialEq, Eq, Structural)]
pub enum ControllerType {
    DualSense,
    DualShock,
    Xbox,
    Gamepad,
}

/// Which buttons of the on-screen gamepad are held.
#[derive(Clone, Copy, Debug, PartialEq, Eq, Structural)]
pub struct GamepadState {
    pub up: bool,
    pub down: bool,
    pub left: bool,
    pub right: bool,
    pub triangle: bool,
    pub square: bool,
    pub circle: bool,
    pub cross: bool,
    pub l1: bool,
    pub l2: bool,
    pub r1: bool,
    pub r2: bool,
    pub select: bool,
    pub home: bool,
    pub start: bool,
}

/// The face buttons clicked in one frame.
#[derive(Clone, Copy, Debug, PartialEq, Eq, Structural)]
pub struct FaceClicks {
    pub triangle: bool,
    pub square: bool,
    pub circle: bool,
    pub cross: bool,
}

/// The shoulder buttons and triggers clicked in one frame.
#[derive(Clone, Copy, Debug, PartialEq, Eq, Structural)]
pub struct ShoulderClicks {
    pub l2: bool,
    pub l1: bool,
    pub r1: bool,
    pub r2: bool,
}

/// The on-screen gamepad of one controller type.
#[derive(Clone, Copy, Debug)]
pub struct GamepadScreen {
    pub controller_type: ControllerType,
    pub state: GamepadState,
}

/// No button held.
pub open spec fn released() -> GamepadState {
    GamepadState {
        up: false,
        down: false,
        left: false,
        right: false,
        triangle: false,
        square: false,
        circle: false,
        cross: false,
        l1: false,
        l2: false,
        r1: false,
        r2: false,
        select: false,
        home: false,
        start: false,
    }
}

/// A button after a frame: a click toggles it.
pub open spec fn toggled(held: bool, clicked: bool) -> bool {
    if clicked { !held } else { held }
}

/// The state after the face-button clicks `c`.
pub open spec fn after_face_clicks(s: GamepadState, c: FaceClicks) -> GamepadState {
    GamepadState {
        triangle: toggled(s.triangle, c.triangle),
        square: toggled(s.square, c.square),
        circle: toggled(s.circle, c.circle),
        cross: toggled(s.cross, c.cross),
        ..s
    }
}

/// The state after the shoulder clicks `c`.
pub open spec fn after_shoulder_clicks(s: GamepadState, c: ShoulderClicks) -> GamepadState {
    GamepadState {
        l2: toggled(s.l2, c.l2),
        l1: toggled(s.l1, c.l1),
        r1: toggled(s.r1, c.r1),
        r2: toggled(s.r2, c.r2),
        ..s
    }
}

/// `held` after a frame in which it was clicked or not.
fn toggle(held: bool, clicked: bool) -> (r: bool)
    ensures
        r == toggled(held, clicked),
{
    if clicked { !held } else { held }
}

impl GamepadScreen {
    /// The gamepad of `controller_type` with no button held.
    pub fn new(controller_type: ControllerType) -> (r: Self)
        ensures
            r.controller_type == controller_type,
            r.state == released(),
    {
        GamepadScreen {
            controller_type,
            state: GamepadState {
                up: false,
                down: false,
                left: false,
                right: false,
                triangle: false,
                square: false,
                circle: false,
                cross: false,
                l1: false,
                l2: false,
                r1: false,
                r2: false,
                select: false,
                home: false,
                start: false,
            },
        }
    }

    /// One frame of the face buttons (triangle above, square and circle, cross
    /// below): each one clicked is toggled.
    pub fn render_face_buttons(&mut self, clicked: FaceClicks)
        ensures
            final(self).controller_type == old(self).controller_type,
            final(self).state == after_face_clicks(old(self).state, clicked),
    {
        let s = self.state;
        self.state = GamepadState {
            triangle: toggle(s.triangle, clicked.triangle),
            square: toggle(s.square, clicked.square),
            circle: toggle(s.circle, clicked.circle),
            cross: toggle(s.cross, clicked.cross),
            ..s
        };
    }

    /// One frame of the shoulder row (L2, L1, R1, R2): each one clicked is
    /// toggled.
    pub fn render_shoulders(&mut self, clicked: ShoulderClicks)
        ensures
            final(self).controller_type == old(self).controller_type,
            final(self).state == after_shoulder_clicks(old(self).state, clicked),
    {
        let s = self.state;
        let mut l2 = s.l2;
        let mut l1 = s.l1;
        let mut r1 = s.r1;
        let mut r2 = s.r2;
        Self::render_trigger(&mut l2, clicked.l2);
        Self::render_shoulder(&mut l1, clicked.l1);
        Self::render_shoulder(&mut r1, clicked.r1);
        Self::render_trigger(&mut r2, clicked.r2);
        self.state = GamepadState { l2, l1, r1, r2, ..s };
    }

    /// A shoulder button: a click toggles it.
    fn render_shoulder(pressed: &mut bool, clicked: bool)
        ensures
            *final(pressed) == toggled(*old(pressed), clicked),
    {
        if clicked {
            *pressed = !*pressed;
        }
    }

    /// A trigger: a click toggles it.
    fn render_trigger(pressed: &mut bool, clicked: bool)
        ensures
            *final(pressed) == toggled(*old(pressed), clicked),
    {
        if clicked {
            *pressed = !*pressed;
        }
    }

    /// Takes the buttons that the physical gamepad mapper reported.
    pub fn update_from_mapper(&mut self, mapped: GamepadState)
        ensures
            final(self).controller_type == old(self).controller_type,
            final(self).state == mapped,
    {
        self.state = mapped;
    }
}

/// Clicking the same face buttons in two frames gives back the state before.
pub proof fn law_face_clicks_twice_restore(s: GamepadState, c: FaceClicks)
    ensures
        after_face_clicks(after_face_clicks(s, c), c) == s,
{
}

/// Clicking the same shoulder buttons in two frames gives back the state before.
pub proof fn law_shoulder_clicks_twice_restore(s: GamepadState, c: ShoulderClicks)
    ensures
        after_shoulder_clicks(after_shoulder_clicks(s, c), c) == s,
{
}

/// The controller selected after a frame of the controller screen, whose
/// cards (DualSense, DualShock, Xbox, drawn in that order) reported the clicks
/// `clicked`: the last card clicked, or the earlier selection when none was.
pub open spec fn selection_after(selected: Option<ControllerType>, clicked: Seq<bool>) -> Option<ControllerType> {
    if clicked[2] {
        Some(ControllerType::Xbox)
    } else if clicked[1] {
        Some(ControllerType::DualShock)
    } else if clicked[0] {
        Some(ControllerType::DualSense)
    } else {
        selected
    }
}

/// One frame of the controller choice: the selection after the clicks on the
/// cards, and the controller chosen, which is the selection when the confirm
/// button was pressed (it is shown only while a controller is selected) and
/// none otherwise.
pub fn choose_controller(selected: Option<ControllerType>, clicked: [bool; 3], confirm: bool) -> (r: (
    Option<ControllerType>,
    Option<ControllerType>,
))
    ensures
        r.0 == selection_after(selected, clicked@),
        r.1 == (if confirm { r.0 } else { None }),
{
    let mut now = selected;
    if clicked[0] {
        now = Some(ControllerType::DualSense);
    }
    if clicked[1] {
        now = Some(ControllerType::DualShock);
    }
    if clicked[2] {
        now = Some(ControllerType::Xbox);
    }
    let chosen = if confirm { now } else { None };
    (now, chosen)
}

/// The controller of card `k` on the controller screen: DualSense, DualShock,
/// Xbox, in the order the cards are drawn.
pub open spec fn card_controller(k: int) -> ControllerType {
    if k == 0 {
        ControllerType::DualSense
    } else if k == 1 {
        ControllerType::DualShock
    } else {
        ControllerType::Xbox
    }
}

/// A click on a card selects that card's controller, whatever was selected
/// before (the same controller included), unless a card drawn later in the
/// same frame was clicked too; with no click the selection stays.
pub proof fn law_click_selects_card(selected: Option<ControllerType>, clicked: Seq<bool>, k: int)
    requires
        clicked.len() == 3,
        0 <= k < 3,
    ensures
        clicked[k] && (forall|j: int| k < j < 3 ==> !#[trigger] clicked[j]) ==> selection_after(selected, clicked)
            == Some(card_controller(k)),
        (forall|j: int| 0 <= j < 3 ==> !#[trigger] clicked[j]) ==> selection_after(selected, clicked) == selected,
{
    if clicked[k] && (forall|j: int| k < j < 3 ==> !#[trigger] clicked[j]) {
        if k < 2 {
            assert(!clicked[2]);
        }
        if k < 1 {
            assert(!clicked[1]);
        }
    }
    if forall|j: int| 0 <= j < 3 ==> !#[trigger] clicked[j] {
        assert(!clicked[0] && !clicked[1] && !clicked[2]);
    }
}

/// A face-button frame flips exactly the face buttons clicked: each of them is
/// held afterwards when it was held or clicked but not both, and every other
/// button stays as it was.
pub proof fn law_face_clicks_flip_clicked(s: GamepadState, c: FaceClicks)
    ensures
        ({
            let t = after_face_clicks(s, c);
            &&& t.triangle == (s.triangle != c.triangle)
            &&& t.square == (s.square != c.square)
            &&& t.circle == (s.circle != c.circle)
            &&& t.cross == (s.cross != c.cross)
            &&& t.up == s.up && t.down == s.down && t.left == s.left && t.right == s.right
            &&& t.l1 == s.l1 && t.l2 == s.l2 && t.r1 == s.r1 && t.r2 == s.r2
            &&& t.select == s.select && t.home == s.home && t.start == s.start
        }),
{
}

/// A shoulder frame flips exactly the shoulder buttons and triggers clicked and
/// leaves every other button as it was.
pub proof fn law_shoulder_clicks_flip_clicked(s: GamepadState, c: ShoulderClicks)
    ensures
        ({
            let t = after_shoulder_clicks(s, c);
            &&& t.l1 == (s.l1 != c.l1)
            &&& t.l2 == (s.l2 != c.l2)
            &&& t.r1 == (s.r1 != c.r1)
            &&& t.r2 == (s.r2 != c.r2)
            &&& t.up == s.up && t.down == s.down && t.left == s.left && t.right == s.right
            &&& t.triangle == s.triangle && t.square == s.square && t.circle == s.circle && t.cross == s.cross
            &&& t.select == s.select && t.home == s.home && t.start == s.start
        }),
{
}

} // verus!
