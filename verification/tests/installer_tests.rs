use ps5_emulator::installer::{InstallStatus, Installer, INSTALL_BASE_ADDRESS, SAVE_BASE_ADDRESS};
use ps5_emulator::memory::VirtualMemory;
use ps5_emulator::package::{GamePackage, GamePatch, GameSaveData, PatchChange};

fn package(title: &str) -> GamePackage {
    let mut p = GamePackage::new_at(title.to_string(), format!("{} Name", title), "1.0".to_string(), 100);
    p.add_chunk(vec![0xAA, 0xBB], false);
    p.add_chunk(vec![0xCC], false);
    p
}

fn installer_with(title: &str) -> (Installer, String) {
    let mut inst = Installer::new(VirtualMemory::new(4 * 1024 * 1024 * 1024));
    let id = inst.register_package(package(title));
    (inst, id)
}

#[test]
fn new_installer() {
    let inst = Installer::new(VirtualMemory::new(4 * 1024 * 1024 * 1024));
    assert_eq!(inst.install_base_path, "/games/");
    assert_eq!(inst.max_concurrent_installs, 2);
    assert_eq!(inst.current_installs, 0);
    assert!(inst.get_all_installations().is_empty());
}

#[test]
fn install_places_chunks_in_memory() {
    let (mut inst, id) = installer_with("CUSA-1");
    assert_eq!(id, "PKG-CUSA-1-100");
    inst.install_package_at(&id, "profile", 555).unwrap();
    let i = inst.get_installation(&id).unwrap();
    assert_eq!(i.install_path, "/games//CUSA-1/");
    assert_eq!(i.installed_chunks, vec![0, 1]);
    assert_eq!(i.install_size, 3);
    assert_eq!(i.installation_time, 555);
    assert!(matches!(&i.install_status, InstallStatus::Installed { install_path } if install_path == "/games//CUSA-1/"));
    assert_eq!(inst.memory.read8(INSTALL_BASE_ADDRESS).unwrap(), 0xAA);
    assert_eq!(inst.memory.read8(INSTALL_BASE_ADDRESS + 1).unwrap(), 0xBB);
    assert_eq!(inst.memory.read8(INSTALL_BASE_ADDRESS + 0x1000).unwrap(), 0xCC);
    assert_eq!(inst.current_installs, 0);
    assert_eq!(inst.get_installed_games(), vec!["CUSA-1 Name - 1.0".to_string()]);
}

#[test]
fn install_errors() {
    let (mut inst, id) = installer_with("CUSA-2");
    assert_eq!(inst.install_package("nope", "p").unwrap_err(), "Package not found");
    inst.install_package(&id, "p").unwrap();
    assert_eq!(inst.install_package(&id, "p").unwrap_err(), "Package already installed");
    inst.current_installs = 2;
    let id2 = inst.register_package(package("CUSA-3"));
    assert_eq!(inst.install_package(&id2, "p").unwrap_err(), "Maximum concurrent installs reached");
}

#[test]
fn corrupted_package_is_refused() {
    let mut inst = Installer::new(VirtualMemory::new(4 * 1024 * 1024 * 1024));
    let mut p = package("CUSA-4");
    p.chunks[0].data[0] = 0;
    let id = inst.register_package(p);
    assert_eq!(inst.install_package(&id, "p").unwrap_err(), "Integrity check failed");
    assert!(inst.get_installation(&id).is_none());
}

#[test]
fn uninstall_removes_and_clears() {
    let (mut inst, id) = installer_with("CUSA-5");
    inst.install_package(&id, "p").unwrap();
    inst.uninstall_package(&id).unwrap();
    assert!(inst.get_installation(&id).is_none());
    assert_eq!(inst.memory.read8(INSTALL_BASE_ADDRESS).unwrap(), 0);
    assert_eq!(inst.uninstall_package(&id).unwrap_err(), "Package not installed");
}

#[test]
fn save_then_load_returns_the_bytes() {
    let (mut inst, id) = installer_with("CUSA-6");
    inst.install_package(&id, "p").unwrap();
    let mut save = GameSaveData::new_at(id.clone(), "profile_001".to_string(), 1);
    save.set_data(vec![7, 8, 9]);
    inst.save_game(&id, "profile_001", save).unwrap();
    assert_eq!(inst.load_save(&id, "profile_001").unwrap(), vec![7, 8, 9]);
    assert_eq!(inst.memory.read8(SAVE_BASE_ADDRESS).unwrap(), 7);
    let mut again = GameSaveData::new_at(id.clone(), "profile_001".to_string(), 2);
    again.set_data(vec![1]);
    inst.save_game(&id, "profile_001", again).unwrap();
    assert_eq!(inst.load_save(&id, "profile_001").unwrap(), vec![1]);
    assert_eq!(inst.get_installation(&id).unwrap().save_files.len(), 1);
    assert_eq!(inst.load_save(&id, "other").unwrap_err(), "Save not found");
    assert_eq!(inst.load_save("x", "profile_001").unwrap_err(), "Installation not found");
}

#[test]
fn play_time_accumulates() {
    let (mut inst, id) = installer_with("CUSA-7");
    inst.install_package(&id, "p").unwrap();
    inst.update_play_time_at(&id, 30, 1000).unwrap();
    inst.update_play_time_at(&id, 12, 2000).unwrap();
    let i = inst.get_installation(&id).unwrap();
    assert_eq!(i.play_time_seconds, 42);
    assert_eq!(i.last_played, 2000);
    assert_eq!(inst.update_play_time("x", 1).unwrap_err(), "Installation not found");
}

#[test]
fn patch_updates_version() {
    let (mut inst, id) = installer_with("CUSA-8");
    let mut patch = GamePatch::new(id.clone(), "1.1".to_string());
    patch.add_change(PatchChange::AddFile { path: "f".to_string(), data: vec![5] });
    assert_eq!(inst.apply_patch(&id, patch.clone()).unwrap_err(), "Installation not found");
    inst.install_package(&id, "p").unwrap();
    inst.apply_patch(&id, patch).unwrap();
    let i = inst.get_installation(&id).unwrap();
    assert_eq!(i.version, "1.1");
    assert_eq!(i.patches.len(), 1);
    assert!(matches!(&i.install_status, InstallStatus::Failed { error } if error == "Update incomplete"));
    assert_eq!(inst.memory.read8(0xA000_0000).unwrap(), 5);
}
