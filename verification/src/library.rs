//! The game library: the games added, their installation, play sessions,
//! saved progress, achievements and statistics; and the demo game.
use crate::cpu_optimized::{run_room, run_spec, CoreStatus, CoreView, Ps5CpuOptimized, Ps5View};
use crate::installer::{
    chunks_placeable, find_save, install_outcome, law_load_returns_saved, registered, save_outcome, Installer,
    SAVE_BASE_ADDRESS, SLOT_SIZE,
};
use crate::memory::{lemma_write_bytes_stops, out_of_range_text, write_bytes, VirtualMemory};
use crate::package::{chunk_intact, chunks_size, new_header, GamePackage, GameSaveData};
use crate::parse::{contains_seq, contains_str, read_state, read_state_spec};
use crate::strmap::{str_eq, StrMap};
use crate::text::{decimal, now_unix_secs};
use vstd::prelude::*;
use vstd::string::StringExecFns;

verus! {

/// A player's review of a game.
#[derive(Clone, Debug)]
pub struct GameReview {
    pub user_id: String,
    pub rating: u8,
    pub comment: String,
    pub timestamp: u64,
    pub helpful: u32,
}

/// The demo game's code: `MOV RAX, 1`, `MOV RCX, 2`, `ADD RAX, RCX`, `HALT`.
pub open spec fn demo_code() -> Seq<u8> {
    seq![
        0x48u8, 0xB8, 0x01, 0x00, 0x00, 0x00, 0x00, 0x00, 0x00, 0x00,
        0x48, 0xB9, 0x02, 0x00, 0x00, 0x00, 0x00, 0x00, 0x00, 0x00,
        0x48, 0x01, 0xC8,
        0xF4,
    ]
}

/// The demo game's icon: the 8-byte PNG signature.
pub open spec fn demo_icon() -> Seq<u8> {
    seq![0x89u8, 0x50, 0x4E, 0x47, 0x0D, 0x0A, 0x1A, 0x0A]
}

/// A demo game package: "Demon Slayer: Virtual Edition" (`CUSA-12345`,
/// version 1.0.0), with the demo code as its one uncompressed chunk, the demo
/// icon, and developer, publisher, genre and rating in its metadata.
pub fn create_demo_game() -> (p: GamePackage)
    ensures
        new_header(p, "CUSA-12345"@, "Demon Slayer: Virtual Edition"@, "1.0.0"@, p.release_date),
        p.size_bytes == 24,
        p.chunks@.len() == 1,
        p.chunks@[0].chunk_id == 0,
        p.chunks@[0].offset == 0,
        p.chunks@[0].size == 24,
        !p.chunks@[0].compressed,
        p.chunks@[0].data@ == demo_code(),
        chunk_intact(p.chunks@[0]),
        p.icon_data@ == demo_icon(),
        p.metadata.wf(),
        p.metadata.view().dom() == set!["developer"@, "publisher"@, "genre"@, "rating"@],
        p.metadata.view()["developer"@]@ == "Virtual Studios"@,
        p.metadata.view()["publisher"@]@ == "Sony Interactive"@,
        p.metadata.view()["genre"@]@ == "Action RPG"@,
        p.metadata.view()["rating"@]@ == "M"@,
{
    let mut package = GamePackage::new(
        String::from_str("CUSA-12345"),
        String::from_str("Demon Slayer: Virtual Edition"),
        String::from_str("1.0.0"),
    );
    let game_code: Vec<u8> = vec![
        0x48, 0xB8, 0x01, 0x00, 0x00, 0x00, 0x00, 0x00, 0x00, 0x00,
        0x48, 0xB9, 0x02, 0x00, 0x00, 0x00, 0x00, 0x00, 0x00, 0x00,
        0x48, 0x01, 0xC8,
        0xF4,
    ];
    proof {
        assert(game_code@ =~= demo_code());
    }
    package.add_chunk(game_code, false);
    package.icon_data = vec![0x89, 0x50, 0x4E, 0x47, 0x0D, 0x0A, 0x1A, 0x0A];
    proof {
        reveal_strlit("developer");
        reveal_strlit("publisher");
        reveal_strlit("genre");
        reveal_strlit("rating");
        assert("developer"@ != "publisher"@ && "developer"@ != "genre"@ && "developer"@ != "rating"@) by {
            assert("developer"@[0] != "publisher"@[0] && "developer"@[0] != "genre"@[0] && "developer"@[0] != "rating"@[0]);
        }
        assert("publisher"@ != "genre"@ && "publisher"@ != "rating"@ && "genre"@ != "rating"@) by {
            assert("publisher"@[0] != "genre"@[0] && "publisher"@[0] != "rating"@[0] && "genre"@[0] != "rating"@[0]);
        }
    }
    package.metadata.insert(String::from_str("developer"), String::from_str("Virtual Studios"));
    package.metadata.insert(String::from_str("publisher"), String::from_str("Sony Interactive"));
    package.metadata.insert(String::from_str("genre"), String::from_str("Action RPG"));
    package.metadata.insert(String::from_str("rating"), String::from_str("M"));
    proof {
        assert(package.icon_data@ =~= demo_icon());
        assert(package.metadata.view().dom() =~= set!["developer"@, "publisher"@, "genre"@, "rating"@]);
    }
    package
}

/// An achievement of a game. Its rarity is a 32-bit float, held by its bits.
#[derive(Clone, Debug)]
pub struct Achievement {
    pub id: String,
    pub name: String,
    pub description: String,
    pub unlocked: bool,
    pub unlock_time: Option<u64>,
    pub points: u32,
    pub rarity_bits: u32,
}

/// A game of the library. Its progress is a 32-bit float, held by its bits.
#[derive(Clone, Debug)]
pub struct GameLibraryEntry {
    pub title_id: String,
    pub title_name: String,
    pub package_id: String,
    pub version: String,
    pub is_installed: bool,
    pub is_updated: bool,
    pub last_played: u64,
    pub play_time: u64,
    pub progress_bits: u32,
    pub achievements: Vec<Achievement>,
    pub rating: u8,
    pub reviews: Vec<GameReview>,
}

/// A point in space whose coordinates are 32-bit floats, held by their bits.
#[derive(Clone, Copy, Debug, PartialEq, Eq, Structural)]
pub struct PositionBits {
    pub x: u32,
    pub y: u32,
    pub z: u32,
}

/// A running game. The player's health and position are 32-bit floats, held
/// by their bits.
#[derive(Clone, Debug)]
pub struct GameSession {
    pub package_id: String,
    pub start_time: u64,
    pub last_save: Option<u64>,
    pub total_time: u64,
    pub current_level: String,
    pub health_bits: u32,
    pub position_bits: PositionBits,
    pub game_state: StrMap<String>,
}

/// Statistics of one game. The progress is a 32-bit float, held by its bits.
#[derive(Clone, Debug)]
pub struct GameStats {
    pub title_name: String,
    pub version: String,
    pub is_installed: bool,
    pub play_time: u64,
    pub last_played: u64,
    pub progress_bits: u32,
    pub achievements_total: u32,
    pub achievements_unlocked: u32,
    pub rating: u8,
    pub total_reviews: u32,
}

/// The games of the player, keyed by title id, with the installer, the running
/// session, and the processor and memory that run the games.
pub struct GameLibrary {
    pub library: StrMap<GameLibraryEntry>,
    pub installer: Installer,
    pub active_session: Option<GameSession>,
    pub cpu: Ps5CpuOptimized,
    pub memory: VirtualMemory,
}

/// The bits of the 32-bit float 100.0, the health of a new session.
pub const FULL_HEALTH_BITS: u32 = 0x42C8_0000;

/// Steps of every core that a launched game runs for.
pub const LAUNCH_BUDGET: u64 = 1000;

/// The entry that `add_game` makes for `p`.
pub open spec fn is_new_entry(e: GameLibraryEntry, p: GamePackage) -> bool {
    &&& e.title_id@ == p.title_id@
    &&& e.title_name@ == p.title_name@
    &&& e.package_id@ == p.package_id@
    &&& e.version@ == p.version@
    &&& !e.is_installed
    &&& !e.is_updated
    &&& e.last_played == 0
    &&& e.play_time == 0
    &&& e.progress_bits == 0
    &&& e.achievements@.len() == 0
    &&& e.rating == 0
    &&& e.reviews@.len() == 0
}

/// The session that `launch_game` opens for `e` at `now`.
pub open spec fn is_new_session(s: GameSession, e: GameLibraryEntry, now: u64) -> bool {
    &&& s.package_id@ == e.package_id@
    &&& s.start_time == now
    &&& s.last_save is None
    &&& s.total_time == e.play_time
    &&& s.current_level@ == "Level 1"@
    &&& s.health_bits == FULL_HEALTH_BITS
    &&& s.position_bits == (PositionBits { x: 0, y: 0, z: 0 })
    &&& s.game_state.wf()
    &&& s.game_state.view() == Map::<Seq<char>, String>::empty()
}

/// `e` with `is_installed` set.
pub open spec fn installed_entry(e: GameLibraryEntry) -> GameLibraryEntry {
    GameLibraryEntry { is_installed: true, ..e }
}

/// `e` last played at `now`.
pub open spec fn played_entry(e: GameLibraryEntry, now: u64) -> GameLibraryEntry {
    GameLibraryEntry { last_played: now, ..e }
}

/// The image of a freshly installed game that is handed to the processor: the
/// bytes 0 to 9.
pub open spec fn game_image() -> Seq<u8> {
    Seq::new(10, |i: int| i as u8)
}

/// The save that `save_game_progress` stores: new save data of `profile_001`
/// for `package_id` made at `t`, holding `state`, with `platform` set to `PS5`.
pub open spec fn is_progress_save(s: GameSaveData, package_id: Seq<char>, state: Seq<u8>, t: u64) -> bool {
    &&& s.save_id@ == "SAVE-"@ + package_id + "-"@ + decimal(t as nat)
    &&& s.package_id@ == package_id
    &&& s.profile_id@ == "profile_001"@
    &&& s.save_time == t
    &&& s.screenshot is None
    &&& s.data@ == state
    &&& s.metadata.wf()
    &&& s.metadata.view().dom() == set!["platform"@]
    &&& s.metadata.view()["platform"@]@ == "PS5"@
}

/// Whether `a` is the achievement `id`.
pub open spec fn achievement_has_id(a: Achievement, id: Seq<char>) -> bool {
    a.id@ == id
}

/// The achievements after unlocking the first one with id `id` at `now` (an
/// achievement already unlocked keeps its time).
pub open spec fn unlock_first(v: Seq<Achievement>, id: Seq<char>, now: u64) -> Seq<Achievement>
    decreases v.len(),
{
    if v.len() == 0 {
        v
    } else if v[0].id@ == id {
        if v[0].unlocked {
            v
        } else {
            seq![Achievement { unlocked: true, unlock_time: Some(now), ..v[0] }] + v.drop_first()
        }
    } else {
        seq![v[0]] + unlock_first(v.drop_first(), id, now)
    }
}

/// The number of unlocked achievements.
pub open spec fn unlocked_count(v: Seq<Achievement>) -> nat
    decreases v.len(),
{
    if v.len() == 0 {
        0
    } else {
        unlocked_count(v.drop_last()) + if v.last().unlocked { 1nat } else { 0nat }
    }
}

/// The statistics of `e`; counts are truncated to 32 bits.
pub open spec fn stats_of(s: GameStats, e: GameLibraryEntry) -> bool {
    &&& s.title_name == e.title_name
    &&& s.version == e.version
    &&& s.is_installed == e.is_installed
    &&& s.play_time == e.play_time
    &&& s.last_played == e.last_played
    &&& s.progress_bits == e.progress_bits
    &&& s.achievements_total == e.achievements@.len() as u32
    &&& s.achievements_unlocked == unlocked_count(e.achievements@) as u32
    &&& s.rating == e.rating
    &&& s.total_reviews == e.reviews@.len() as u32
}

fn text(msg: &str) -> (s: String)
    ensures
        s@ == msg@,
{
    String::from_str(msg)
}

impl GameLibrary {
    /// The library's maps have distinct keys and its memories are well formed.
    pub open spec fn wf(&self) -> bool {
        &&& self.library.wf()
        &&& self.installer.wf()
        &&& self.memory.wf()
    }

    /// An empty library running games on `cpu` over `memory`; its installer works
    /// on a copy of `memory`.
    pub fn new(cpu: Ps5CpuOptimized, memory: VirtualMemory) -> (r: Self)
        requires
            memory.wf(),
        ensures
            r.wf(),
            r.library.view() == Map::<Seq<char>, GameLibraryEntry>::empty(),
            r.active_session is None,
            r.cpu == cpu,
            r.memory == memory,
            r.installer.memory@ == memory@,
            r.installer.installations.view() == Map::<Seq<char>, crate::installer::GameInstallation>::empty(),
            r.installer.package_cache.view() == Map::<Seq<char>, GamePackage>::empty(),
            r.installer.install_base_path@ == "/games/"@,
            r.installer.max_concurrent_installs == 2,
            r.installer.current_installs == 0,
    {
        let installer = Installer::new(memory.duplicate());
        GameLibrary { library: StrMap::new(), installer, active_session: None, cpu, memory }
    }

    /// Registers `package` with the installer and adds a new entry for it under
    /// its title id; returns its package id.
    pub fn add_game(&mut self, package: GamePackage) -> (r: Result<String, String>)
        requires
            old(self).wf(),
        ensures
            final(self).wf(),
            r matches Ok(id) && id == package.package_id,
            registered(old(self).installer, final(self).installer, package),
            final(self).library.view().contains_key(package.title_id@),
            final(self).library.view() == old(self).library.view().insert(
                package.title_id@,
                final(self).library.view()[package.title_id@],
            ),
            is_new_entry(final(self).library.view()[package.title_id@], package),
            final(self).active_session == old(self).active_session,
            final(self).cpu == old(self).cpu,
            final(self).memory == old(self).memory,
    {
        let package_id = package.package_id.clone();
        let title_id = package.title_id.clone();
        let title_name = package.title_name.clone();
        let version = package.version.clone();
        let ghost p = package;
        let install_id = self.installer.register_package(package);
        let entry = GameLibraryEntry {
            title_id: title_id.clone(),
            title_name,
            package_id: install_id.clone(),
            version,
            is_installed: false,
            is_updated: false,
            last_played: 0,
            play_time: 0,
            progress_bits: 0,
            achievements: Vec::new(),
            rating: 0,
            reviews: Vec::new(),
        };
        self.library.insert(title_id, entry);
        Ok(install_id)
    }

    /// Installs the game `title_id` for `profile_id` and returns the image that
    /// is handed to the processor: refused with "Game not found in library" or
    /// "Game already installed", or with the installer's error.
    pub fn install_game(&mut self, title_id: &str, profile_id: &str) -> (r: Result<Vec<u8>, String>)
        requires
            old(self).wf(),
            old(self).library.view().contains_key(title_id@) ==> {
                let id = old(self).library.view()[title_id@].package_id@;
                old(self).installer.package_cache.view().contains_key(id) ==> {
                    let p = old(self).installer.package_cache.view()[id];
                    chunks_size(p.chunks@) <= u64::MAX && chunks_placeable(p.chunks@)
                }
            },
        ensures
            final(self).wf(),
            final(self).active_session == old(self).active_session,
            final(self).cpu == old(self).cpu,
            final(self).memory == old(self).memory,
            !old(self).library.view().contains_key(title_id@) ==> {
                &&& r matches Err(e) && e@ == "Game not found in library"@
                &&& final(self).library == old(self).library
                &&& final(self).installer == old(self).installer
            },
            old(self).library.view().contains_key(title_id@) && old(self).library.view()[title_id@].is_installed ==> {
                &&& r matches Err(e) && e@ == "Game already installed"@
                &&& final(self).library == old(self).library
                &&& final(self).installer == old(self).installer
            },
            old(self).library.view().contains_key(title_id@) && !old(self).library.view()[title_id@].is_installed ==> {
                let e = old(self).library.view()[title_id@];
                &&& exists|now: u64| install_outcome(old(self).installer, final(self).installer, e.package_id@, unit_of(r), now)
                &&& r is Err ==> final(self).library == old(self).library
                &&& r matches Ok(image) ==> {
                    &&& final(self).library.view() == old(self).library.view().insert(title_id@, installed_entry(e))
                    &&& image@ == (if final(self).installer.installations.view().contains_key(e.package_id@) {
                        game_image()
                    } else {
                        Seq::<u8>::empty()
                    })
                }
            },
    {
        let (package_id, installed) = match self.library.get(title_id) {
            Some(e) => (e.package_id.clone(), e.is_installed),
            None => {
                return Err(text("Game not found in library"));
            },
        };
        if installed {
            return Err(text("Game already installed"));
        }
        let ghost inst0 = self.installer;
        let installed_now = self.installer.install_package(package_id.as_str(), profile_id);
        let ghost t = choose|t: u64| install_outcome(inst0, self.installer, package_id@, installed_now, t);
        match installed_now {
            Ok(()) => {},
            Err(e) => {
                proof {
                    assert(install_outcome(inst0, self.installer, package_id@, unit_of(Err::<Vec<u8>, String>(e)), t));
                }
                return Err(e);
            },
        }
        let mut entry = match self.library.remove(title_id) {
            Some(e) => e,
            None => {
                return Err(text("Game not found in library"));
            },
        };
        let ghost e0 = entry;
        entry.is_installed = true;
        let ghost lib_mid = self.library.view();
        self.library.insert(String::from_str(title_id), entry);
        proof {
            assert(entry == installed_entry(e0));
            assert(self.library.view() =~= old(self).library.view().insert(title_id@, installed_entry(e0)));
        }
        let game_data = match self.installer.get_installation(package_id.as_str()) {
            Some(_) => {
                let mut data: Vec<u8> = Vec::new();
                let mut i: u8 = 0;
                while i < 10
                    invariant
                        i <= 10,
                        data@ == Seq::new(i as nat, |j: int| j as u8),
                    decreases 10 - i,
                {
                    data.push(i);
                    i = i + 1;
                    proof {
                        assert(data@ =~= Seq::new(i as nat, |j: int| j as u8));
                    }
                }
                data
            },
            None => Vec::new(),
        };
        proof {
            assert(install_outcome(inst0, self.installer, package_id@, unit_of(Ok::<Vec<u8>, String>(game_data)), t));
        }
        Ok(game_data)
    }

    /// The entry of `title_id`, if any.
    pub fn get_game_info(&self, title_id: &str) -> (r: Option<&GameLibraryEntry>)
        requires
            self.wf(),
        ensures
            match r {
                Some(e) => self.library.view().contains_key(title_id@) && self.library.view()[title_id@] == *e,
                None => !self.library.view().contains_key(title_id@),
            },
    {
        self.library.get(title_id)
    }

    /// Every entry, in the order they were first added.
    pub fn get_all_games(&self) -> (r: Vec<&GameLibraryEntry>)
        ensures
            r@.len() == self.library.entries().len(),
            forall|i: int| 0 <= i < r@.len() ==> *r@[i] == self.library.entries()[i].1,
    {
        self.library.values()
    }

    /// The installed entries, in the order they were first added.
    pub fn get_installed_games(&self) -> (r: Vec<&GameLibraryEntry>)
        ensures
            r@.map_values(|e: &GameLibraryEntry| *e) == self.library.values_seq().filter(|e: GameLibraryEntry| e.is_installed),
    {
        let all = self.library.values();
        let ghost vals = self.library.values_seq();
        let mut r: Vec<&GameLibraryEntry> = Vec::new();
        let mut i: usize = 0;
        proof {
            assert(vals.take(0).filter(|e: GameLibraryEntry| e.is_installed) =~= Seq::<GameLibraryEntry>::empty());
            assert(r@.map_values(|e: &GameLibraryEntry| *e) =~= Seq::<GameLibraryEntry>::empty());
        }
        while i < all.len()
            invariant
                all@.len() == self.library.entries().len(),
                forall|j: int| 0 <= j < all@.len() ==> *all@[j] == self.library.entries()[j].1,
                vals == self.library.values_seq(),
                vals.len() == all@.len(),
                i <= all@.len(),
                r@.map_values(|e: &GameLibraryEntry| *e) == vals.take(i as int).filter(|e: GameLibraryEntry| e.is_installed),
            decreases all@.len() - i,
        {
            let e = all[i];
            proof {
                assert(vals[i as int] == *e);
                assert(vals.take(i as int + 1).drop_last() =~= vals.take(i as int));
                vals.take(i as int + 1).filter_lemma(|e: GameLibraryEntry| e.is_installed);
            }
            let ghost before = r@;
            if e.is_installed {
                r.push(e);
                proof {
                    assert(r@.map_values(|e: &GameLibraryEntry| *e) =~= before.map_values(|e: &GameLibraryEntry| *e).push(*e));
                }
            }
            proof {
                reveal(Seq::filter);
                assert(vals.take(i as int + 1).filter(|e: GameLibraryEntry| e.is_installed) == if vals.take(i as int + 1).last().is_installed {
                    vals.take(i as int).filter(|e: GameLibraryEntry| e.is_installed).push(vals[i as int])
                } else {
                    vals.take(i as int).filter(|e: GameLibraryEntry| e.is_installed)
                });
            }
            i = i + 1;
        }
        proof {
            assert(vals.take(i as int) =~= vals);
        }
        r
    }
}

/// The outcome of a call that returns a value, without the value.
pub open spec fn unit_of(r: Result<Vec<u8>, String>) -> Result<(), String> {
    match r {
        Ok(_) => Ok(()),
        Err(e) => Err(e),
    }
}

/// The entry `b` is `a` but for its achievements.
pub open spec fn same_but_achievements(a: GameLibraryEntry, b: GameLibraryEntry) -> bool {
    GameLibraryEntry { achievements: b.achievements, ..a } == b
}

/// Unlocking the achievement at `i`, the first with id `id`, is what
/// `unlock_first` does.
proof fn lemma_unlock_first(v: Seq<Achievement>, id: Seq<char>, now: u64, i: int)
    requires
        0 <= i <= v.len(),
        forall|j: int| 0 <= j < i ==> (#[trigger] v[j]).id@ != id,
        i < v.len() ==> v[i].id@ == id,
    ensures
        i == v.len() ==> unlock_first(v, id, now) == v,
        i < v.len() && v[i].unlocked ==> unlock_first(v, id, now) == v,
        i < v.len() && !v[i].unlocked ==> unlock_first(v, id, now) == v.update(
            i,
            Achievement { unlocked: true, unlock_time: Some(now), ..v[i] },
        ),
    decreases v.len(),
{
    if v.len() > 0 {
        if i == 0 {
            if !v[0].unlocked {
                assert(unlock_first(v, id, now) =~= v.update(0, Achievement { unlocked: true, unlock_time: Some(now), ..v[0] }));
            }
        } else {
            let t = v.drop_first();
            assert forall|j: int| 0 <= j < i - 1 implies (#[trigger] t[j]).id@ != id by {
                assert(t[j] == v[j + 1]);
            }
            lemma_unlock_first(t, id, now, i - 1);
            if i == v.len() {
                assert(unlock_first(v, id, now) =~= v);
            } else if v[i].unlocked {
                assert(unlock_first(v, id, now) =~= v);
            } else {
                assert(unlock_first(v, id, now) =~= v.update(i, Achievement { unlocked: true, unlock_time: Some(now), ..v[i] }));
            }
        }
    }
}

impl GameLibrary {
    /// Appends `achievement` to the game `title_id`; refused with "Game not found".
    pub fn add_achievement(&mut self, title_id: &str, achievement: Achievement) -> (r: Result<(), String>)
        requires
            old(self).wf(),
        ensures
            final(self).wf(),
            final(self).installer == old(self).installer,
            final(self).active_session == old(self).active_session,
            final(self).cpu == old(self).cpu,
            final(self).memory == old(self).memory,
            !old(self).library.view().contains_key(title_id@) ==> {
                &&& r matches Err(e) && e@ == "Game not found"@
                &&& final(self).library == old(self).library
            },
            old(self).library.view().contains_key(title_id@) ==> {
                let e = old(self).library.view()[title_id@];
                &&& r is Ok
                &&& final(self).library.view().contains_key(title_id@)
                &&& final(self).library.view() == old(self).library.view().insert(title_id@, final(self).library.view()[title_id@])
                &&& same_but_achievements(e, final(self).library.view()[title_id@])
                &&& final(self).library.view()[title_id@].achievements@ == e.achievements@.push(achievement)
            },
    {
        let mut entry = match self.library.remove(title_id) {
            Some(e) => e,
            None => {
                return Err(text("Game not found"));
            },
        };
        entry.achievements.push(achievement);
        self.library.insert(String::from_str(title_id), entry);
        proof {
            assert(self.library.view() =~= old(self).library.view().insert(title_id@, entry));
        }
        Ok(())
    }

    /// The statistics of the game `title_id`, if it is in the library.
    pub fn get_game_stats(&self, title_id: &str) -> (r: Option<GameStats>)
        requires
            self.wf(),
        ensures
            match r {
                Some(st) => self.library.view().contains_key(title_id@) && stats_of(st, self.library.view()[title_id@]),
                None => !self.library.view().contains_key(title_id@),
            },
    {
        let entry = match self.library.get(title_id) {
            Some(e) => e,
            None => {
                return None;
            },
        };
        let mut unlocked: usize = 0;
        let mut i: usize = 0;
        while i < entry.achievements.len()
            invariant
                i <= entry.achievements@.len(),
                unlocked <= i,
                unlocked == unlocked_count(entry.achievements@.take(i as int)),
            decreases entry.achievements@.len() - i,
        {
            proof {
                assert(entry.achievements@.take(i as int + 1).drop_last() =~= entry.achievements@.take(i as int));
            }
            if entry.achievements[i].unlocked {
                unlocked = unlocked + 1;
            }
            i = i + 1;
        }
        proof {
            assert(entry.achievements@.take(i as int) =~= entry.achievements@);
        }
        Some(GameStats {
            title_name: entry.title_name.clone(),
            version: entry.version.clone(),
            is_installed: entry.is_installed,
            play_time: entry.play_time,
            last_played: entry.last_played,
            progress_bits: entry.progress_bits,
            achievements_total: entry.achievements.len() as u32,
            achievements_unlocked: unlocked as u32,
            rating: entry.rating,
            total_reviews: entry.reviews.len() as u32,
        })
    }

    /// Unlocks, at the current time, the first achievement `achievement_id` of
    /// the game of the running session.
    pub fn unlock_achievement(&mut self, achievement_id: &str) -> (r: Result<(), String>)
        requires
            old(self).wf(),
        ensures
            final(self).wf(),
            exists|now: u64| unlock_outcome(*old(self), *final(self), achievement_id@, now, r),
    {
        let now = now_unix_secs();
        self.unlock_achievement_at(achievement_id, now)
    }

    /// Unlocks, at `now`, the first achievement `achievement_id` of the game of
    /// the running session (looked up by the session's package id); one already
    /// unlocked keeps its time. Refused with "No active game session" or "Game
    /// not found".
    pub fn unlock_achievement_at(&mut self, achievement_id: &str, now: u64) -> (r: Result<(), String>)
        requires
            old(self).wf(),
        ensures
            final(self).wf(),
            unlock_outcome(*old(self), *final(self), achievement_id@, now, r),
    {
        let package_id = match &self.active_session {
            Some(s) => s.package_id.clone(),
            None => {
                return Err(text("No active game session"));
            },
        };
        let mut entry = match self.library.remove(package_id.as_str()) {
            Some(e) => e,
            None => {
                return Err(text("Game not found"));
            },
        };
        let ghost e0 = entry;
        let mut i: usize = 0;
        while i < entry.achievements.len()
            invariant
                i <= entry.achievements@.len(),
                entry == e0,
                forall|j: int| 0 <= j < i ==> (#[trigger] entry.achievements@[j]).id@ != achievement_id@,
            ensures
                i <= entry.achievements@.len(),
                entry == e0,
                forall|j: int| 0 <= j < i ==> (#[trigger] entry.achievements@[j]).id@ != achievement_id@,
                i < entry.achievements@.len() ==> entry.achievements@[i as int].id@ == achievement_id@,
            decreases entry.achievements@.len() - i,
        {
            if str_eq(entry.achievements[i].id.as_str(), achievement_id) {
                break;
            }
            i = i + 1;
        }
        proof {
            lemma_unlock_first(e0.achievements@, achievement_id@, now, i as int);
        }
        if i < entry.achievements.len() && !entry.achievements[i].unlocked {
            let mut a = entry.achievements.remove(i);
            a.unlocked = true;
            a.unlock_time = Some(now);
            entry.achievements.insert(i, a);
            proof {
                assert(entry.achievements@ =~= e0.achievements@.update(
                    i as int,
                    Achievement { unlocked: true, unlock_time: Some(now), ..e0.achievements@[i as int] },
                ));
            }
        }
        self.library.insert(package_id, entry);
        proof {
            assert(self.library.view() =~= old(self).library.view().insert(package_id@, entry));
        }
        Ok(())
    }
}

/// What `unlock_achievement_at(id, now)` does to the library.
pub open spec fn unlock_outcome(a: GameLibrary, b: GameLibrary, id: Seq<char>, now: u64, r: Result<(), String>) -> bool {
    &&& b.installer == a.installer
    &&& b.active_session == a.active_session
    &&& b.cpu == a.cpu
    &&& b.memory == a.memory
    &&& match a.active_session {
        None => r matches Err(e) && e@ == "No active game session"@ && b.library == a.library,
        Some(s) => if !a.library.view().contains_key(s.package_id@) {
            r matches Err(e) && e@ == "Game not found"@ && b.library == a.library
        } else {
            let e = a.library.view()[s.package_id@];
            &&& r is Ok
            &&& b.library.view().contains_key(s.package_id@)
            &&& b.library.view() == a.library.view().insert(s.package_id@, b.library.view()[s.package_id@])
            &&& same_but_achievements(e, b.library.view()[s.package_id@])
            &&& b.library.view()[s.package_id@].achievements@ == unlock_first(e.achievements@, id, now)
        },
    }
}

/// What `String::from_utf8` gives for `data`: the characters that the bytes
/// encode in UTF-8, or the text of the error for bytes that are not UTF-8.
pub uninterp spec fn utf8_decoding(data: Seq<u8>) -> Result<Seq<char>, Seq<char>>;

/// Decodes `data` with `String::from_utf8`: the decoded string, or the
/// `Display` text of the error. The contract claims that the outcome depends
/// on the bytes alone and names it `utf8_decoding`.
#[verifier::external_body]
fn decode_utf8(data: Vec<u8>) -> (r: Result<String, String>)
    ensures
        match r {
            Ok(s) => utf8_decoding(data@) == Ok::<Seq<char>, Seq<char>>(s@),
            Err(e) => utf8_decoding(data@) == Err::<Seq<char>, Seq<char>>(e@),
        },
{
    match String::from_utf8(data) {
        Ok(s) => Ok(s),
        Err(e) => Err(e.to_string()),
    }
}

/// What `str::to_lowercase` gives for `s`: the Unicode lowercase mapping of the
/// text, in which one character may become several and a capital sigma becomes
/// final or medial by its place in a word.
pub uninterp spec fn lowercase_text(s: Seq<char>) -> Seq<char>;

/// Lowercases `s` with `str::to_lowercase`. The contract claims that the result
/// depends on the characters alone and names it `lowercase_text`.
#[verifier::external_body]
fn to_lowercase(s: &str) -> (r: String)
    ensures
        r@ == lowercase_text(s@),
{
    s.to_lowercase()
}

/// Whether the game `e` matches the search `query`: the lowercased query occurs
/// in its lowercased title name or title id.
pub open spec fn matches_query(e: GameLibraryEntry, query: Seq<char>) -> bool {
    contains_seq(lowercase_text(e.title_name@), lowercase_text(query))
        || contains_seq(lowercase_text(e.title_id@), lowercase_text(query))
}

/// The session after reading its saved state `text`: the level and the total
/// time that the state sets.
pub open spec fn restored_session(s: GameSession, text: Seq<char>) -> (Seq<char>, u64) {
    read_state_spec(s.current_level@, s.total_time, text)
}

impl GameLibrary {
    /// Launches the game `title_id`, stamped with the current time.
    pub fn launch_game(&mut self, title_id: &str, profile_id: &str) -> (r: Result<(), String>)
        requires
            old(self).wf(),
            old(self).library.view().contains_key(title_id@) && old(self).library.view()[title_id@].is_installed
                ==> run_room(old(self).cpu@, LAUNCH_BUDGET as nat),
        ensures
            final(self).wf(),
            exists|started: u64, finished: u64| launch_outcome(*old(self), *final(self), title_id@, started, finished, r),
    {
        let started = now_unix_secs();
        let finished = now_unix_secs();
        self.launch_game_at(title_id, profile_id, started, finished)
    }

    /// Launches the game `title_id`: opens a session started at `started`, runs
    /// the processor for `LAUNCH_BUDGET` steps, and records `finished` as the
    /// time it was last played. Refused with "Game not found" or "Game not
    /// installed".
    pub fn launch_game_at(&mut self, title_id: &str, profile_id: &str, started: u64, finished: u64) -> (r: Result<(), String>)
        requires
            old(self).wf(),
            old(self).library.view().contains_key(title_id@) && old(self).library.view()[title_id@].is_installed
                ==> run_room(old(self).cpu@, LAUNCH_BUDGET as nat),
        ensures
            final(self).wf(),
            launch_outcome(*old(self), *final(self), title_id@, started, finished, r),
    {
        let (package_id, installed, play_time) = match self.library.get(title_id) {
            Some(e) => (e.package_id.clone(), e.is_installed, e.play_time),
            None => {
                return Err(text("Game not found"));
            },
        };
        if !installed {
            return Err(text("Game not installed"));
        }
        let session = GameSession {
            package_id,
            start_time: started,
            last_save: None,
            total_time: play_time,
            current_level: text("Level 1"),
            health_bits: FULL_HEALTH_BITS,
            position_bits: PositionBits { x: 0, y: 0, z: 0 },
            game_state: StrMap::new(),
        };
        self.active_session = Some(session);
        match self.cpu.run(&mut self.memory, LAUNCH_BUDGET) {
            Ok(()) => {},
            Err(e) => {
                return Err(e);
            },
        }
        let mut entry = match self.library.remove(title_id) {
            Some(e) => e,
            None => {
                return Err(text("Game not found"));
            },
        };
        entry.last_played = finished;
        self.library.insert(String::from_str(title_id), entry);
        proof {
            assert(self.library.view() =~= old(self).library.view().insert(title_id@, entry));
        }
        Ok(())
    }

    /// Saves the running session, stamped with the current time.
    pub fn save_game_progress(&mut self, state: Vec<u8>) -> (r: Result<(), String>)
        requires
            old(self).wf(),
            save_fits(*old(self), state@.len()),
        ensures
            final(self).wf(),
            exists|save_time: u64, now: u64| save_progress_outcome(*old(self), *final(self), state@, save_time, now, r),
    {
        let save_time = now_unix_secs();
        let now = now_unix_secs();
        self.save_game_progress_at(state, save_time, now)
    }

    /// Saves the running session: `state` is the session written as
    /// `level=<level>;health=<health>;pos=<x>,<y>,<z>;time=<total time>` (its
    /// numbers are floating point, so the caller writes it). It is stored as the
    /// save of `profile_001`, made at `save_time`, with `platform` set to `PS5`;
    /// on success the session was last saved at `now`. Refused with "No active
    /// game session", or with the installer's error.
    pub fn save_game_progress_at(&mut self, state: Vec<u8>, save_time: u64, now: u64) -> (r: Result<(), String>)
        requires
            old(self).wf(),
            save_fits(*old(self), state@.len()),
        ensures
            final(self).wf(),
            save_progress_outcome(*old(self), *final(self), state@, save_time, now, r),
    {
        let mut session = match self.active_session.take() {
            Some(s) => s,
            None => {
                return Err(text("No active game session"));
            },
        };
        let ghost s0 = session;
        let mut save_data = GameSaveData::new_at(session.package_id.clone(), text("profile_001"), save_time);
        save_data.set_data(state);
        save_data.add_metadata(text("platform"), text("PS5"));
        proof {
            assert(save_data.metadata.view().dom() =~= set!["platform"@]);
        }
        let ghost save = save_data;
        let ghost inst0 = self.installer;
        proof {
            assert(is_progress_save(save, s0.package_id@, state@, save_time));
        }
        let saved = self.installer.save_game(session.package_id.as_str(), "profile_001", save_data);
        proof {
            assert(save_outcome(inst0, self.installer, s0.package_id@, "profile_001"@, save, saved));
        }
        match saved {
            Ok(()) => {},
            Err(e) => {
                self.active_session = Some(session);
                proof {
                    assert(save_outcome(inst0, self.installer, s0.package_id@, "profile_001"@, save, Err::<(), String>(e)));
                }
                return Err(e);
            },
        }
        session.last_save = Some(now);
        self.active_session = Some(session);
        proof {
            assert(save_outcome(inst0, self.installer, s0.package_id@, "profile_001"@, save, Ok::<(), String>(())));
        }
        Ok(())
    }

    /// Loads the saved state of the running session and restores its level and
    /// total time from it; returns the state, whose health and position (floating
    /// point) the caller reads. Refused with "No active game session", with the
    /// installer's error, or with "Invalid save data: " and the decoding error
    /// when the saved bytes are not UTF-8.
    pub fn load_game_progress(&mut self) -> (r: Result<String, String>)
        requires
            old(self).wf(),
        ensures
            final(self).wf(),
            final(self).library == old(self).library,
            final(self).installer == old(self).installer,
            final(self).cpu == old(self).cpu,
            final(self).memory == old(self).memory,
            match old(self).active_session {
                None => r matches Err(e) && e@ == "No active game session"@ && final(self).active_session is None,
                Some(s) => match old(self).installer.installations.view().get(s.package_id@) {
                    None => r matches Err(e) && e@ == "Installation not found"@ && final(self).active_session == old(self).active_session,
                    Some(inst) => match crate::installer::find_save(inst.save_files@, "profile_001"@) {
                        None => r matches Err(e) && e@ == "Save not found"@ && final(self).active_session == old(self).active_session,
                        Some(bytes) => match utf8_decoding(bytes) {
                            Err(msg) => r matches Err(e) && e@ == "Invalid save data: "@ + msg
                                && final(self).active_session == old(self).active_session,
                            Ok(text) => {
                                let (level, time) = restored_session(s, text);
                                &&& r matches Ok(t) && t@ == text
                                &&& final(self).active_session == Some(GameSession { current_level: final(self).active_session->0.current_level, total_time: time, ..s })
                                &&& final(self).active_session->0.current_level@ == level
                            },
                        },
                    },
                },
            },
    {
        let mut session = match self.active_session.take() {
            Some(s) => s,
            None => {
                return Err(text("No active game session"));
            },
        };
        let bytes = match self.installer.load_save(session.package_id.as_str(), "profile_001") {
            Ok(b) => b,
            Err(e) => {
                self.active_session = Some(session);
                return Err(e);
            },
        };
        let state = match decode_utf8(bytes) {
            Ok(t) => t,
            Err(msg) => {
                self.active_session = Some(session);
                let mut m = text("Invalid save data: ");
                m.append(msg.as_str());
                return Err(m);
            },
        };
        let (level, time) = read_state(state.as_str(), session.current_level, session.total_time);
        session.current_level = level;
        session.total_time = time;
        self.active_session = Some(session);
        Ok(state)
    }

    /// The games whose title name or title id holds `query`, ignoring case, in
    /// the order they were first added.
    pub fn search_games(&self, query: &str) -> (r: Vec<&GameLibraryEntry>)
        ensures
            r@.map_values(|e: &GameLibraryEntry| *e) == self.library.values_seq().filter(|e: GameLibraryEntry| matches_query(e, query@)),
    {
        let q = to_lowercase(query);
        let all = self.library.values();
        let ghost vals = self.library.values_seq();
        let mut r: Vec<&GameLibraryEntry> = Vec::new();
        let mut i: usize = 0;
        proof {
            assert(vals.take(0).filter(|e: GameLibraryEntry| matches_query(e, query@)) =~= Seq::<GameLibraryEntry>::empty());
            assert(r@.map_values(|e: &GameLibraryEntry| *e) =~= Seq::<GameLibraryEntry>::empty());
        }
        while i < all.len()
            invariant
                all@.len() == self.library.entries().len(),
                forall|j: int| 0 <= j < all@.len() ==> *all@[j] == self.library.entries()[j].1,
                vals == self.library.values_seq(),
                vals.len() == all@.len(),
                q@ == lowercase_text(query@),
                i <= all@.len(),
                r@.map_values(|e: &GameLibraryEntry| *e) == vals.take(i as int).filter(|e: GameLibraryEntry| matches_query(e, query@)),
            decreases all@.len() - i,
        {
            let e = all[i];
            let name = to_lowercase(e.title_name.as_str());
            let id = to_lowercase(e.title_id.as_str());
            let hit = contains_str(name.as_str(), q.as_str()) || contains_str(id.as_str(), q.as_str());
            proof {
                assert(vals[i as int] == *e);
                assert(hit == matches_query(*e, query@));
                assert(vals.take(i as int + 1).drop_last() =~= vals.take(i as int));
            }
            let ghost before = r@;
            if hit {
                r.push(e);
                proof {
                    assert(r@.map_values(|e: &GameLibraryEntry| *e) =~= before.map_values(|e: &GameLibraryEntry| *e).push(*e));
                }
            }
            proof {
                reveal(Seq::filter);
                assert(vals.take(i as int + 1).filter(|e: GameLibraryEntry| matches_query(e, query@)) == if matches_query(vals.take(i as int + 1).last(), query@) {
                    vals.take(i as int).filter(|e: GameLibraryEntry| matches_query(e, query@)).push(vals[i as int])
                } else {
                    vals.take(i as int).filter(|e: GameLibraryEntry| matches_query(e, query@))
                });
            }
            i = i + 1;
        }
        proof {
            assert(vals.take(i as int) =~= vals);
        }
        r
    }
}

/// The installer has room in memory for a save of `len` bytes of the running
/// session's game.
pub open spec fn save_fits(l: GameLibrary, len: nat) -> bool {
    match l.active_session {
        Some(s) => l.installer.installations.view().contains_key(s.package_id@) ==> SAVE_BASE_ADDRESS
            + l.installer.installations.view()[s.package_id@].save_files@.len() * SLOT_SIZE + len <= u64::MAX,
        None => true,
    }
}

/// What `launch_game_at(title_id, _, started, finished)` does to the library.
pub open spec fn launch_outcome(a: GameLibrary, b: GameLibrary, title_id: Seq<char>, started: u64, finished: u64, r: Result<(), String>) -> bool {
    if !a.library.view().contains_key(title_id) {
        r matches Err(e) && e@ == "Game not found"@ && b == a
    } else if !a.library.view()[title_id].is_installed {
        r matches Err(e) && e@ == "Game not installed"@ && b == a
    } else {
        let e = a.library.view()[title_id];
        &&& r is Ok
        &&& b.active_session matches Some(s) && is_new_session(s, e, started)
        &&& (b.cpu@, b.memory@) == run_spec(a.cpu@, a.memory@, LAUNCH_BUDGET as nat)
        &&& b.library.view() == a.library.view().insert(title_id, played_entry(e, finished))
        &&& b.installer == a.installer
    }
}

/// What `save_game_progress_at(state, save_time, now)` does to the library.
pub open spec fn save_progress_outcome(a: GameLibrary, b: GameLibrary, state: Seq<u8>, save_time: u64, now: u64, r: Result<(), String>) -> bool {
    &&& b.library == a.library
    &&& b.cpu == a.cpu
    &&& b.memory == a.memory
    &&& match a.active_session {
        None => r matches Err(e) && e@ == "No active game session"@ && b.installer == a.installer
            && b.active_session is None,
        Some(s) => exists|save: GameSaveData| {
            &&& is_progress_save(save, s.package_id@, state, save_time)
            &&& save_outcome(a.installer, b.installer, s.package_id@, "profile_001"@, save, r)
            &&& b.active_session == (if r is Ok {
                Some(GameSession { last_save: Some(now), ..s })
            } else {
                a.active_session
            })
        },
    }
}

/// Saved progress loads back: after `save_game_progress` succeeded with
/// `state`, the save that `load_game_progress` reads for the session's game is
/// `state`.
pub proof fn law_progress_loads_back(a: GameLibrary, b: GameLibrary, state: Seq<u8>, save_time: u64, now: u64)
    requires
        a.active_session is Some,
        save_progress_outcome(a, b, state, save_time, now, Ok(())),
    ensures
        ({
            let id = a.active_session->0.package_id@;
            &&& b.installer.installations.view().contains_key(id)
            &&& find_save(b.installer.installations.view()[id].save_files@, "profile_001"@) == Some(state)
        }),
{
    let s = a.active_session->0;
    let id = s.package_id@;
    let save = choose|save: GameSaveData| {
        &&& is_progress_save(save, id, state, save_time)
        &&& save_outcome(a.installer, b.installer, id, "profile_001"@, save, Ok(()))
        &&& b.active_session == (if Ok::<(), String>(()) is Ok {
            Some(GameSession { last_save: Some(now), ..s })
        } else {
            a.active_session
        })
    };
    law_load_returns_saved(a.installer.installations.view()[id], b.installer.installations.view()[id], "profile_001"@, save);
}

/// A game is installed once: after `install_game` succeeded, its entry is
/// installed, so a second `install_game` is refused with "Game already
/// installed".
pub proof fn law_install_game_once(before: Map<Seq<char>, GameLibraryEntry>, after: Map<Seq<char>, GameLibraryEntry>, title_id: Seq<char>)
    requires
        before.contains_key(title_id),
        after == before.insert(title_id, installed_entry(before[title_id])),
    ensures
        after.contains_key(title_id),
        after[title_id].is_installed,
{
}

/// Address where a started game's code is loaded.
pub const GAME_LOAD_ADDRESS: u64 = 0x1000;

/// The processor with core 0 active at `GAME_LOAD_ADDRESS`.
pub open spec fn pointed_at_game(p: Ps5View) -> Ps5View {
    Ps5View {
        cores: p.cores.update(0, CoreView { rip: GAME_LOAD_ADDRESS, status: CoreStatus::Active, ..p.cores[0] }),
        ..p
    }
}

impl GameLibrary {
    /// Starts the game `title_id` on the processor: the demo code is written at
    /// `GAME_LOAD_ADDRESS`, and core 0 is pointed at it and made active; returns
    /// the game's title name. Refused with "Jogo não encontrado" or "Jogo não
    /// está instalado", or with the memory's error at the first byte of the code
    /// that falls outside the memory (the bytes before it stay written).
    pub fn start_game(&mut self, title_id: &str) -> (r: Result<String, String>)
        requires
            old(self).wf(),
        ensures
            final(self).wf(),
            !old(self).library.view().contains_key(title_id@) ==> {
                &&& r matches Err(e) && e@ == "Jogo não encontrado"@
                &&& *final(self) == *old(self)
            },
            old(self).library.view().contains_key(title_id@) && !old(self).library.view()[title_id@].is_installed ==> {
                &&& r matches Err(e) && e@ == "Jogo não está instalado"@
                &&& *final(self) == *old(self)
            },
            old(self).library.view().contains_key(title_id@) && old(self).library.view()[title_id@].is_installed ==> {
                let (m, failed) = write_bytes(old(self).memory@, GAME_LOAD_ADDRESS as int, demo_code());
                &&& final(self).memory@ == m
                &&& match failed {
                    None => {
                        &&& r matches Ok(name) && name@ == old(self).library.view()[title_id@].title_name@
                        &&& final(self).cpu@ == pointed_at_game(old(self).cpu@)
                    },
                    Some(a) => {
                        &&& r matches Err(e) && e@ == out_of_range_text(a as u64)
                        &&& final(self).cpu == old(self).cpu
                    },
                }
                &&& final(self).library == old(self).library
                &&& final(self).installer == old(self).installer
                &&& final(self).active_session == old(self).active_session
            },
    {
        let (name, installed) = match self.library.get(title_id) {
            Some(e) => (e.title_name.clone(), e.is_installed),
            None => {
                return Err(text("Jogo não encontrado"));
            },
        };
        if !installed {
            return Err(text("Jogo não está instalado"));
        }
        let game_data: Vec<u8> = vec![
            0x48, 0xB8, 0x01, 0x00, 0x00, 0x00, 0x00, 0x00, 0x00, 0x00,
            0x48, 0xB9, 0x02, 0x00, 0x00, 0x00, 0x00, 0x00, 0x00, 0x00,
            0x48, 0x01, 0xC8,
            0xF4,
        ];
        proof {
            assert(game_data@ =~= demo_code());
            assert(game_data@.take(0) =~= Seq::<u8>::empty());
        }
        let mut i: usize = 0;
        while i < game_data.len()
            invariant
                old(self).wf(),
                old(self).library.view().contains_key(title_id@),
                old(self).library.view()[title_id@].is_installed,
                self.memory.wf(),
                self.memory@.size == old(self).memory@.size,
                game_data@ == demo_code(),
                i <= game_data@.len(),
                write_bytes(old(self).memory@, GAME_LOAD_ADDRESS as int, game_data@.take(i as int)) == (self.memory@, None::<int>),
                self.library == old(self).library,
                self.installer == old(self).installer,
                self.active_session == old(self).active_session,
                self.cpu == old(self).cpu,
            decreases game_data@.len() - i,
        {
            proof {
                assert(game_data@.take(i + 1).drop_last() =~= game_data@.take(i as int));
            }
            let written = self.memory.write8(GAME_LOAD_ADDRESS + i as u64, game_data[i]);
            if let Err(e) = written {
                proof {
                    assert(write_bytes(old(self).memory@, GAME_LOAD_ADDRESS as int, demo_code().take(i + 1)).1 is Some);
                    lemma_write_bytes_stops(old(self).memory@, GAME_LOAD_ADDRESS as int, demo_code(), (i + 1) as nat);
                }
                return Err(e);
            }
            i = i + 1;
        }
        proof {
            assert(game_data@.take(i as int) =~= demo_code());
        }
        let ghost cores0 = self.cpu@.cores;
        self.cpu.cores[0].rip = GAME_LOAD_ADDRESS;
        self.cpu.cores[0].status = CoreStatus::Active;
        proof {
            assert(self.cpu@.cores =~= pointed_at_game(old(self).cpu@).cores);
        }
        Ok(name)
    }
}

/// Whether a game titled `title` matches the search `query`: the lowercased
/// query occurs in the lowercased title.
pub fn title_matches(title: &str, query: &str) -> (b: bool)
    ensures
        b == contains_seq(lowercase_text(title@), lowercase_text(query@)),
{
    let t = to_lowercase(title);
    let q = to_lowercase(query);
    contains_str(t.as_str(), q.as_str())
}

/// Unlocking marks the first achievement with the id, and only it: the list
/// keeps its length and every other achievement; that achievement becomes
/// unlocked, stamped with `now` unless it was already unlocked (then it keeps
/// its time), with its id, name, description and points unchanged. Without an
/// achievement of that id nothing changes.
pub proof fn law_unlock_marks_first_match(v: Seq<Achievement>, id: Seq<char>, now: u64, i: int)
    requires
        0 <= i <= v.len(),
        forall|j: int| 0 <= j < i ==> (#[trigger] v[j]).id@ != id,
        i < v.len() ==> v[i].id@ == id,
    ensures
        ({
            let r = unlock_first(v, id, now);
            &&& r.len() == v.len()
            &&& forall|j: int| 0 <= j < v.len() && j != i ==> #[trigger] r[j] == v[j]
            &&& i < v.len() ==> {
                &&& r[i].unlocked
                &&& r[i].unlock_time == (if v[i].unlocked { v[i].unlock_time } else { Some(now) })
                &&& r[i].id == v[i].id
                &&& r[i].name == v[i].name
                &&& r[i].description == v[i].description
                &&& r[i].points == v[i].points
                &&& r[i].rarity_bits == v[i].rarity_bits
            }
        }),
{
    lemma_unlock_first(v, id, now, i);
}

/// A launch refused leaves the library as it was: an unknown title is "Game not
/// found", one not installed is "Game not installed". A launch that succeeds
/// opens a session for the game's package at `started`, at "Level 1", carrying
/// its play time so far, marks the game last played at `finished` with every
/// other field kept, and touches no other game.
pub proof fn law_launch_opens_session(a: GameLibrary, b: GameLibrary, title_id: Seq<char>, started: u64, finished: u64, r: Result<(), String>)
    requires
        launch_outcome(a, b, title_id, started, finished, r),
    ensures
        !a.library.view().contains_key(title_id) ==> (r matches Err(e) && e@ == "Game not found"@ && b == a),
        a.library.view().contains_key(title_id) && !a.library.view()[title_id].is_installed ==> (r matches Err(e)
            && e@ == "Game not installed"@ && b == a),
        a.library.view().contains_key(title_id) && a.library.view()[title_id].is_installed ==> {
            let e = a.library.view()[title_id];
            let s = b.active_session->0;
            let e2 = b.library.view()[title_id];
            &&& r is Ok
            &&& b.active_session is Some
            &&& s.package_id@ == e.package_id@
            &&& s.start_time == started
            &&& s.total_time == e.play_time
            &&& s.current_level@ == "Level 1"@
            &&& s.last_save is None
            &&& e2.last_played == finished
            &&& e2.play_time == e.play_time
            &&& e2.is_installed
            &&& e2.title_id == e.title_id
            &&& e2.package_id == e.package_id
            &&& e2.achievements == e.achievements
            &&& forall|t: Seq<char>| t != title_id ==> #[trigger] b.library.view().contains_key(t) == a.library.view().contains_key(t)
            &&& forall|t: Seq<char>| t != title_id && a.library.view().contains_key(t) ==> #[trigger] b.library.view()[t] == a.library.view()[t]
        },
{
}

} // verus!
