use ps5_emulator::audio::sounds_to_stop;
use ps5_emulator::library::title_matches;
use ps5_emulator::responsive::{DeviceType, ScreenClass, ScreenOrientation};
use ps5_emulator::text::{decimal_string, hex2_string, hex_string, join4};

#[test]
fn numbers_render_like_format() {
    for n in [0u64, 9, 10, 255, 4096, 0x500_0000_0000, u64::MAX] {
        assert_eq!(decimal_string(n), format!("{}", n));
        assert_eq!(hex_string(n), format!("{:X}", n));
    }
    for n in [0u8, 7, 15, 16, 0xAB, 255] {
        assert_eq!(hex2_string(n), format!("{:02X}", n));
    }
    assert_eq!(join4("a", "b", "-", "c"), "ab-c");
}

#[test]
fn sounds_are_stopped_by_prefix() {
    let names = vec!["test_1".to_string(), "music".to_string(), "test_2".to_string(), "te".to_string()];
    assert_eq!(sounds_to_stop(&names, "test"), vec!["test_1".to_string(), "test_2".to_string()]);
    assert_eq!(sounds_to_stop(&names, "").len(), 4);
    assert!(sounds_to_stop(&names, "x").is_empty());
}

#[test]
fn titles_match_ignoring_case() {
    assert!(title_matches("Demon Slayer", "slay"));
    assert!(title_matches("ÉCOLE", "école"));
    assert!(!title_matches("Demon", "demons"));
}

#[test]
fn grid_columns_by_screen() {
    let phone_up = ScreenClass { device: DeviceType::Phone, orientation: ScreenOrientation::Portrait };
    let phone_side = ScreenClass { device: DeviceType::Phone, orientation: ScreenOrientation::Landscape };
    let tablet = ScreenClass { device: DeviceType::Tablet, orientation: ScreenOrientation::Portrait };
    let laptop = ScreenClass { device: DeviceType::Chromebook, orientation: ScreenOrientation::Landscape };
    let desk = ScreenClass { device: DeviceType::Desktop, orientation: ScreenOrientation::Landscape };
    assert_eq!(phone_up.get_grid_cols(), 2);
    assert_eq!(phone_side.get_grid_cols(), 3);
    assert_eq!(tablet.get_grid_cols(), 4);
    assert_eq!(laptop.get_grid_cols(), 4);
    assert_eq!(desk.get_grid_cols(), 6);
    assert!(phone_up.is_phone() && phone_up.is_portrait());
    assert!(tablet.is_tablet() && laptop.is_chromebook() && desk.is_desktop());
    assert!(!desk.is_portrait());
}
