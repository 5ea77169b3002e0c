//! Screen classes: the kind of device and its orientation, and the layout
//! choices that depend on them alone.
use vstd::prelude::*;

verus! {

/// The kind of device the screen belongs to.
#[derive(Clone, Copy, Debug, PartialEq, Eq, Structural)]
pub enum DeviceType {
    Phone,
    Tablet,
    Desktop,
    Chromebook,
}

/// How the screen is held.
#[derive(Clone, Copy, Debug, PartialEq, Eq, Structural)]
pub enum ScreenOrientation {
    Portrait,
    Landscape,
}

/// The class of a screen: its device kind and orientation.
#[derive(Clone, Copy, Debug, PartialEq, Eq, Structural)]
pub struct ScreenClass {
    pub device: DeviceType,
    pub orientation: ScreenOrientation,
}

/// Columns of the game grid: 2 on a phone held upright, 3 on a phone held
/// sideways, 4 on tablets and Chromebooks, 6 on desktops.
pub open spec fn grid_cols(c: ScreenClass) -> usize {
    match c.device {
        DeviceType::Phone => if c.orientation == ScreenOrientation::Portrait { 2 } else { 3 },
        DeviceType::Tablet => 4,
        DeviceType::Chromebook => 4,
        DeviceType::Desktop => 6,
    }
}

impl ScreenClass {
    /// Whether the device is a phone.
    pub fn is_phone(&self) -> (b: bool)
        ensures
            b == (self.device == DeviceType::Phone),
    {
        self.device == DeviceType::Phone
    }

    /// Whether the device is a tablet.
    pub fn is_tablet(&self) -> (b: bool)
        ensures
            b == (self.device == DeviceType::Tablet),
    {
        self.device == DeviceType::Tablet
    }

    /// Whether the device is a desktop.
    pub fn is_desktop(&self) -> (b: bool)
        ensures
            b == (self.device == DeviceType::Desktop),
    {
        self.device == DeviceType::Desktop
    }

    /// Whether the device is a Chromebook.
    pub fn is_chromebook(&self) -> (b: bool)
        ensures
            b == (self.device == DeviceType::Chromebook),
    {
        self.device == DeviceType::Chromebook
    }

    /// Whether the screen is held upright.
    pub fn is_portrait(&self) -> (b: bool)
        ensures
            b == (self.orientation == ScreenOrientation::Portrait),
    {
        self.orientation == ScreenOrientation::Portrait
    }

    /// Columns of the game grid.
    pub fn get_grid_cols(&self) -> (n: usize)
        ensures
            n == grid_cols(*self),
    {
        match self.device {
            DeviceType::Phone => if self.is_portrait() { 2 } else { 3 },
            DeviceType::Tablet => 4,
            DeviceType::Chromebook => 4,
            DeviceType::Desktop => 6,
        }
    }
}

/// The game grid widens with the screen: a phone held sideways has one column
/// more than held upright, tablets and Chromebooks have more than any phone and
/// the same number as each other, and desktops have the most; outside phones
/// the orientation changes nothing.
pub proof fn law_grid_widens_with_screen(a: ScreenClass, b: ScreenClass)
    ensures
        a.device == DeviceType::Phone && b.device == DeviceType::Phone && a.orientation == ScreenOrientation::Portrait
            && b.orientation == ScreenOrientation::Landscape ==> grid_cols(b) == grid_cols(a) + 1,
        a.device == DeviceType::Phone && b.device != DeviceType::Phone ==> grid_cols(a) < grid_cols(b),
        (a.device == DeviceType::Tablet || a.device == DeviceType::Chromebook) && b.device == DeviceType::Desktop
            ==> grid_cols(a) < grid_cols(b),
        a.device != DeviceType::Phone && a.device == b.device ==> grid_cols(a) == grid_cols(b),
        (a.device == DeviceType::Tablet || a.device == DeviceType::Chromebook) && (b.device == DeviceType::Tablet
            || b.device == DeviceType::Chromebook) ==> grid_cols(a) == grid_cols(b),
        2 <= grid_cols(a) <= 6,
{
}

} // verus!
