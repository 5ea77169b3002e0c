use ps5_emulator::cpu_optimized::Ps5CpuOptimized;
use ps5_emulator::library::{
    create_demo_game, Achievement, GameLibrary, GameLibraryEntry, GameReview, FULL_HEALTH_BITS,
};
use ps5_emulator::memory::VirtualMemory;

fn library() -> GameLibrary {
    GameLibrary::new(Ps5CpuOptimized::new(), VirtualMemory::new(4 * 1024 * 1024 * 1024))
}

fn achievement(id: &str) -> Achievement {
    Achievement {
        id: id.to_string(),
        name: format!("{} name", id),
        description: String::new(),
        unlocked: false,
        unlock_time: None,
        points: 10,
        rarity_bits: 0.5f32.to_bits(),
    }
}

#[test]
fn demo_game_contents() {
    let p = create_demo_game();
    assert_eq!(p.title_id, "CUSA-12345");
    assert_eq!(p.title_name, "Demon Slayer: Virtual Edition");
    assert_eq!(p.version, "1.0.0");
    assert_eq!(p.chunks.len(), 1);
    assert_eq!(p.chunks[0].data.len(), 24);
    assert_eq!(p.chunks[0].data[0], 0x48);
    assert_eq!(p.chunks[0].data[23], 0xF4);
    assert_eq!(p.size_bytes, 24);
    assert!(p.verify_integrity());
    assert_eq!(p.icon_data, vec![0x89, 0x50, 0x4E, 0x47, 0x0D, 0x0A, 0x1A, 0x0A]);
    assert_eq!(p.metadata.get("developer").unwrap(), "Virtual Studios");
    assert_eq!(p.metadata.get("publisher").unwrap(), "Sony Interactive");
    assert_eq!(p.metadata.get("genre").unwrap(), "Action RPG");
    assert_eq!(p.metadata.get("rating").unwrap(), "M");
    assert_eq!(p.metadata.len(), 4);
    assert!(p.package_id.starts_with("PKG-CUSA-12345-"));
}

#[test]
fn review_holds_its_fields() {
    let r = GameReview { user_id: "u".to_string(), rating: 5, comment: "ok".to_string(), timestamp: 1, helpful: 2 };
    let c = r.clone();
    assert_eq!(c.rating, 5);
    assert_eq!(c.helpful, 2);
}

#[test]
fn add_and_find_game() {
    let mut lib = library();
    let demo = create_demo_game();
    let pid = demo.package_id.clone();
    assert_eq!(lib.add_game(demo).unwrap(), pid);
    let e = lib.get_game_info("CUSA-12345").unwrap();
    assert_eq!(e.package_id, pid);
    assert!(!e.is_installed);
    assert!(lib.get_game_info("nope").is_none());
    assert_eq!(lib.get_all_games().len(), 1);
    assert!(lib.get_installed_games().is_empty());
}

#[test]
fn install_game_once() {
    let mut lib = library();
    lib.add_game(create_demo_game()).unwrap();
    assert_eq!(lib.install_game("nope", "p").unwrap_err(), "Game not found in library");
    let image = lib.install_game("CUSA-12345", "p").unwrap();
    assert_eq!(image, (0u8..10).collect::<Vec<u8>>());
    assert!(lib.get_game_info("CUSA-12345").unwrap().is_installed);
    assert_eq!(lib.get_installed_games().len(), 1);
    assert_eq!(lib.install_game("CUSA-12345", "p").unwrap_err(), "Game already installed");
}

#[test]
fn launch_opens_a_session() {
    let mut lib = library();
    lib.add_game(create_demo_game()).unwrap();
    assert_eq!(lib.launch_game_at("CUSA-12345", "p", 10, 20).unwrap_err(), "Game not installed");
    assert_eq!(lib.launch_game_at("nope", "p", 10, 20).unwrap_err(), "Game not found");
    lib.install_game("CUSA-12345", "p").unwrap();
    lib.launch_game_at("CUSA-12345", "p", 10, 20).unwrap();
    let s = lib.active_session.as_ref().unwrap();
    assert_eq!(s.start_time, 10);
    assert_eq!(s.current_level, "Level 1");
    assert_eq!(s.health_bits, FULL_HEALTH_BITS);
    assert_eq!(f32::from_bits(s.health_bits), 100.0);
    assert_eq!(lib.get_game_info("CUSA-12345").unwrap().last_played, 20);
    assert!(lib.cpu.total_cycles > 0);
}

#[test]
fn save_and_load_progress() {
    let mut lib = library();
    assert_eq!(lib.save_game_progress(b"x".to_vec()).unwrap_err(), "No active game session");
    assert_eq!(lib.load_game_progress().unwrap_err(), "No active game session");
    lib.add_game(create_demo_game()).unwrap();
    lib.install_game("CUSA-12345", "p").unwrap();
    lib.launch_game("CUSA-12345", "p").unwrap();
    assert_eq!(lib.load_game_progress().unwrap_err(), "Save not found");
    let state = "level=Boss;health=50;pos=1,2,3;time=77";
    lib.save_game_progress_at(state.as_bytes().to_vec(), 5, 6).unwrap();
    assert_eq!(lib.active_session.as_ref().unwrap().last_save, Some(6));
    let text = lib.load_game_progress().unwrap();
    assert_eq!(text, state);
    let s = lib.active_session.as_ref().unwrap();
    assert_eq!(s.current_level, "Boss");
    assert_eq!(s.total_time, 77);
}

#[test]
fn load_ignores_bad_entries() {
    let mut lib = library();
    lib.add_game(create_demo_game()).unwrap();
    lib.install_game("CUSA-12345", "p").unwrap();
    lib.launch_game("CUSA-12345", "p").unwrap();
    lib.save_game_progress(b"time=+12;level=a=b;time=x;junk;;level=".to_vec()).unwrap();
    lib.load_game_progress().unwrap();
    let s = lib.active_session.as_ref().unwrap();
    assert_eq!(s.total_time, 12);
    assert_eq!(s.current_level, "");
}

#[test]
fn invalid_utf8_save_is_refused() {
    let mut lib = library();
    lib.add_game(create_demo_game()).unwrap();
    lib.install_game("CUSA-12345", "p").unwrap();
    lib.launch_game("CUSA-12345", "p").unwrap();
    lib.save_game_progress(vec![0xFF, 0xFE]).unwrap();
    let err = lib.load_game_progress().unwrap_err();
    assert!(err.starts_with("Invalid save data: "));
    assert_eq!(err, format!("Invalid save data: {}", String::from_utf8(vec![0xFF, 0xFE]).unwrap_err()));
}

#[test]
fn search_ignores_case() {
    let mut lib = library();
    lib.add_game(create_demo_game()).unwrap();
    assert_eq!(lib.search_games("DEMON").len(), 1);
    assert_eq!(lib.search_games("cusa-123").len(), 1);
    assert_eq!(lib.search_games("zelda").len(), 0);
    assert_eq!(lib.search_games("").len(), 1);
}

#[test]
fn achievements_and_stats() {
    let mut lib = library();
    assert_eq!(lib.add_achievement("CUSA-12345", achievement("a")).unwrap_err(), "Game not found");
    lib.add_game(create_demo_game()).unwrap();
    lib.add_achievement("CUSA-12345", achievement("a")).unwrap();
    lib.add_achievement("CUSA-12345", achievement("b")).unwrap();
    let st = lib.get_game_stats("CUSA-12345").unwrap();
    assert_eq!(st.achievements_total, 2);
    assert_eq!(st.achievements_unlocked, 0);
    assert_eq!(st.title_name, "Demon Slayer: Virtual Edition");
    assert_eq!(st.total_reviews, 0);
    assert!(lib.get_game_stats("nope").is_none());
}

#[test]
fn unlock_looks_up_the_session_package() {
    let mut lib = library();
    assert_eq!(lib.unlock_achievement("a").unwrap_err(), "No active game session");
    lib.add_game(create_demo_game()).unwrap();
    lib.install_game("CUSA-12345", "p").unwrap();
    lib.launch_game("CUSA-12345", "p").unwrap();
    // The session names the package id; the library is keyed by title id.
    assert_eq!(lib.unlock_achievement("a").unwrap_err(), "Game not found");
    let pid = lib.active_session.as_ref().unwrap().package_id.clone();
    let entry = GameLibraryEntry {
        title_id: pid.clone(),
        title_name: "t".to_string(),
        package_id: pid.clone(),
        version: "1".to_string(),
        is_installed: true,
        is_updated: false,
        last_played: 0,
        play_time: 0,
        progress_bits: 0,
        achievements: vec![achievement("a"), achievement("b"), achievement("a")],
        rating: 0,
        reviews: vec![],
    };
    lib.library.insert(pid.clone(), entry);
    lib.unlock_achievement_at("a", 99).unwrap();
    lib.unlock_achievement_at("a", 100).unwrap();
    let e = lib.get_game_info(&pid).unwrap();
    assert!(e.achievements[0].unlocked);
    assert_eq!(e.achievements[0].unlock_time, Some(99));
    assert!(!e.achievements[1].unlocked);
    assert!(!e.achievements[2].unlocked);
    assert_eq!(lib.get_game_stats(&pid).unwrap().achievements_unlocked, 1);
}

#[test]
fn start_game_loads_the_demo_code() {
    let mut lib = library();
    assert_eq!(lib.start_game("CUSA-12345").unwrap_err(), "Jogo não encontrado");
    lib.add_game(create_demo_game()).unwrap();
    assert_eq!(lib.start_game("CUSA-12345").unwrap_err(), "Jogo não está instalado");
    lib.install_game("CUSA-12345", "p").unwrap();
    assert_eq!(lib.start_game("CUSA-12345").unwrap(), "Demon Slayer: Virtual Edition");
    assert_eq!(lib.cpu.cores[0].rip, 0x1000);
    assert_eq!(lib.memory.read8(0x1000).unwrap(), 0x48);
    assert_eq!(lib.memory.read8(0x1000 + 23).unwrap(), 0xF4);
}

#[test]
fn start_game_stops_at_the_end_of_memory() {
    let mut lib = GameLibrary::new(Ps5CpuOptimized::new(), VirtualMemory::new(0x1010));
    lib.add_game(create_demo_game()).unwrap();
    lib.install_game("CUSA-12345", "p").unwrap();
    assert_eq!(lib.start_game("CUSA-12345").unwrap_err(), "Endereço fora da RAM virtual: 0x1010");
    assert_eq!(lib.memory.read8(0x100F).unwrap(), 0x00);
    assert_eq!(lib.memory.read8(0x1000).unwrap(), 0x48);
    assert_eq!(lib.cpu.cores[0].rip, 0);
}
