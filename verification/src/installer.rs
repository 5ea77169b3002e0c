//! Installation of registered packages into the virtual memory, patches,
//! play time and save files.
use crate::memory::{byte_at, lemma_store_bytes, pages_ok, store, MemView, VirtualMemory};
use crate::package::{
    change_size, chunk_intact, chunks_size, GamePackage, GamePatch, GameSaveData, PackageChunk,
    PatchChange,
};
use crate::strmap::{str_eq, StrMap};
use crate::text::{join4, now_unix_secs};
use vstd::prelude::*;
use vstd::string::StringExecFns;

verus! {

/// Base address where the chunks of an installed package are placed.
pub const INSTALL_BASE_ADDRESS: u64 = 0x8000_0000;
/// Base address where the files added by patches are placed.
pub const PATCH_BASE_ADDRESS: u64 = 0xA000_0000;
/// Base address where save data is placed.
pub const SAVE_BASE_ADDRESS: u64 = 0xB000_0000;
/// Distance between two consecutive slots in memory.
pub const SLOT_SIZE: u64 = 0x1000;

/// State of an installation. Progress is in whole percent.
#[derive(Clone, Debug)]
pub enum InstallStatus {
    NotInstalled,
    Installing { progress: u32, current_chunk: u32 },
    Installed { install_path: String },
    Failed { error: String },
    Updating { progress: u32 },
}

/// An installed package.
#[derive(Clone, Debug)]
pub struct GameInstallation {
    pub package_id: String,
    pub title_id: String,
    pub title_name: String,
    pub version: String,
    pub install_status: InstallStatus,
    pub install_size: u64,
    pub installed_chunks: Vec<u32>,
    pub install_path: String,
    pub installation_time: u64,
    pub last_played: u64,
    pub play_time_seconds: u64,
    pub achievements_unlocked: Vec<String>,
    pub save_files: Vec<GameSaveData>,
    pub patches: Vec<GamePatch>,
}

/// The package installer: a cache of registered packages, the installations,
/// and the virtual memory they are installed into.
#[derive(Clone, Debug)]
pub struct Installer {
    pub installations: StrMap<GameInstallation>,
    pub package_cache: StrMap<GamePackage>,
    pub memory: VirtualMemory,
    pub install_base_path: String,
    pub max_concurrent_installs: usize,
    pub current_installs: usize,
}

/// The memory after storing `v` at `a`, or unchanged where `a` lies outside the
/// virtual RAM (such writes fail and their error is dropped).
pub open spec fn store_or_skip(m: MemView, a: int, v: u8) -> MemView {
    if 0 <= a < m.size {
        store(m, a as u64, v)
    } else {
        m
    }
}

/// The memory after storing the bytes of `data` one by one from address `base`.
pub open spec fn write_block(m: MemView, base: int, data: Seq<u8>) -> MemView
    decreases data.len(),
{
    if data.len() == 0 {
        m
    } else {
        store_or_skip(write_block(m, base, data.drop_last()), base + data.len() - 1, data.last())
    }
}

/// The memory after installing the first `n` chunks, chunk `i` at slot `i` from
/// `INSTALL_BASE_ADDRESS`.
pub open spec fn install_writes(m: MemView, chunks: Seq<PackageChunk>, n: nat) -> MemView
    decreases n,
{
    if n == 0 {
        m
    } else {
        let i = n - 1;
        write_block(
            install_writes(m, chunks, i as nat),
            INSTALL_BASE_ADDRESS + i * SLOT_SIZE,
            chunks[i].data@,
        )
    }
}

/// The memory after zeroing `n` slots from `INSTALL_BASE_ADDRESS`.
pub open spec fn clear_slots(m: MemView, n: nat) -> MemView
    decreases n,
{
    if n == 0 {
        m
    } else {
        let i = n - 1;
        write_block(
            clear_slots(m, i as nat),
            INSTALL_BASE_ADDRESS + i * SLOT_SIZE,
            Seq::new(SLOT_SIZE as nat, |j: int| 0u8),
        )
    }
}

/// The memory after writing the files that the first `n` changes of a patch add.
pub open spec fn patch_writes(m: MemView, changes: Seq<PatchChange>, n: nat) -> MemView
    decreases n,
{
    if n == 0 {
        m
    } else {
        let i = n - 1;
        let before = patch_writes(m, changes, i as nat);
        match changes[i] {
            PatchChange::AddFile { data, .. } => write_block(before, PATCH_BASE_ADDRESS + i * SLOT_SIZE, data@),
            _ => before,
        }
    }
}

/// The ids of the chunks, in order.
pub open spec fn chunk_ids(chunks: Seq<PackageChunk>) -> Seq<u32> {
    chunks.map_values(|c: PackageChunk| c.chunk_id)
}

/// The saves that remain when the save of `profile` is replaced.
pub open spec fn other_profiles(saves: Seq<GameSaveData>, profile: Seq<char>) -> Seq<GameSaveData> {
    saves.filter(|s: GameSaveData| s.profile_id@ != profile)
}

/// Chunk placement stays inside 64-bit addresses.
pub open spec fn chunks_placeable(chunks: Seq<PackageChunk>) -> bool {
    forall|i: int| #![trigger chunks[i]]
        0 <= i < chunks.len() ==> INSTALL_BASE_ADDRESS + i * SLOT_SIZE + chunks[i].data@.len() <= u64::MAX
}

/// What a fresh installation of `p`, made at `now` under `base`, holds.
pub open spec fn is_fresh_installation(inst: GameInstallation, p: GamePackage, base: Seq<char>, now: u64) -> bool {
    &&& inst.package_id == p.package_id
    &&& inst.title_id == p.title_id
    &&& inst.title_name == p.title_name
    &&& inst.version == p.version
    &&& inst.install_path@ == base + "/"@ + p.title_id@ + "/"@
    &&& inst.install_status matches InstallStatus::Installed { install_path } && install_path@
        == inst.install_path@
    &&& inst.install_size == chunks_size(p.chunks@)
    &&& inst.installed_chunks@ == chunk_ids(p.chunks@)
    &&& inst.installation_time == now
    &&& inst.last_played == 0
    &&& inst.play_time_seconds == 0
    &&& inst.achievements_unlocked@.len() == 0
    &&& inst.save_files@.len() == 0
    &&& inst.patches@.len() == 0
}

/// The two installers agree on everything but the installations and the memory.
pub open spec fn same_setup(a: Installer, b: Installer) -> bool {
    &&& a.package_cache == b.package_cache
    &&& a.install_base_path == b.install_base_path
    &&& a.max_concurrent_installs == b.max_concurrent_installs
    &&& a.current_installs == b.current_installs
}

fn error(msg: &str) -> (s: String)
    ensures
        s@ == msg@,
{
    String::from_str(msg)
}

impl Installer {
    /// The maps have distinct keys and the memory is well formed.
    pub open spec fn wf(&self) -> bool {
        &&& self.installations.wf()
        &&& self.package_cache.wf()
        &&& self.memory.wf()
    }

    /// An installer over `memory`, with no package, installing into `"/games/"`,
    /// at most two installs at a time.
    pub fn new(memory: VirtualMemory) -> (r: Self)
        requires
            memory.wf(),
        ensures
            r.wf(),
            r.installations.view() == Map::<Seq<char>, GameInstallation>::empty(),
            r.installations.entries().len() == 0,
            r.package_cache.view() == Map::<Seq<char>, GamePackage>::empty(),
            r.package_cache.entries().len() == 0,
            r.memory == memory,
            r.install_base_path@ == "/games/"@,
            r.max_concurrent_installs == 2,
            r.current_installs == 0,
    {
        Installer {
            installations: StrMap::new(),
            package_cache: StrMap::new(),
            memory,
            install_base_path: String::from_str("/games/"),
            max_concurrent_installs: 2,
            current_installs: 0,
        }
    }

    /// Adds `package` to the cache under its package id, which is returned.
    pub fn register_package(&mut self, package: GamePackage) -> (id: String)
        requires
            old(self).wf(),
        ensures
            final(self).wf(),
            id == package.package_id,
            registered(*old(self), *final(self), package),
    {
        let package_id = package.package_id.clone();
        self.package_cache.insert(package_id.clone(), package);
        package_id
    }

    /// Installs the cached package `package_id`, stamped with the current time.
    pub fn install_package(&mut self, package_id: &str, profile_id: &str) -> (r: Result<(), String>)
        requires
            old(self).wf(),
            old(self).package_cache.view().contains_key(package_id@) ==> {
                let p = old(self).package_cache.view()[package_id@];
                chunks_size(p.chunks@) <= u64::MAX && chunks_placeable(p.chunks@)
            },
        ensures
            final(self).wf(),
            exists|now: u64| install_outcome(*old(self), *final(self), package_id@, r, now),
    {
        let now = now_unix_secs();
        self.install_package_at(package_id, profile_id, now)
    }

    /// Installs the cached package `package_id` at time `now`: its chunks are
    /// checked and written to memory, one slot per chunk.
    pub fn install_package_at(&mut self, package_id: &str, profile_id: &str, now: u64) -> (r: Result<(), String>)
        requires
            old(self).wf(),
            old(self).package_cache.view().contains_key(package_id@) ==> {
                let p = old(self).package_cache.view()[package_id@];
                chunks_size(p.chunks@) <= u64::MAX && chunks_placeable(p.chunks@)
            },
        ensures
            final(self).wf(),
            install_outcome(*old(self), *final(self), package_id@, r, now),
    {
        let package = match self.package_cache.get(package_id) {
            Some(p) => p,
            None => {
                return Err(error("Package not found"));
            },
        };
        if self.current_installs >= self.max_concurrent_installs {
            return Err(error("Maximum concurrent installs reached"));
        }
        if self.installations.contains_key(package_id) {
            return Err(error("Package already installed"));
        }
        self.current_installs = self.current_installs + 1;
        let install_path = join4(
            self.install_base_path.as_str(),
            "/",
            package.title_id.as_str(),
            "/",
        );
        let mut installation = GameInstallation {
            package_id: package.package_id.clone(),
            title_id: package.title_id.clone(),
            title_name: package.title_name.clone(),
            version: package.version.clone(),
            install_status: InstallStatus::Installing { progress: 0, current_chunk: 0 },
            install_size: package.get_total_size(),
            installed_chunks: Vec::new(),
            install_path,
            installation_time: now,
            last_played: 0,
            play_time_seconds: 0,
            achievements_unlocked: Vec::new(),
            save_files: Vec::new(),
            patches: Vec::new(),
        };
        // The integrity of the whole package is checked before the first chunk is
        // written; a failure leaves everything as it was.
        if package.chunks.len() > 0 && !package.verify_integrity() {
            installation.install_status = InstallStatus::Failed {
                error: error("Integrity check failed at chunk 0"),
            };
            self.current_installs = self.current_installs - 1;
            return Err(error("Integrity check failed"));
        }
        let total_chunks = package.chunks.len() as u64;
        let mut i: usize = 0;
        while i < package.chunks.len()
            invariant
                self.memory.wf(),
                self.installations == old(self).installations,
                self.package_cache == old(self).package_cache,
                self.install_base_path == old(self).install_base_path,
                self.max_concurrent_installs == old(self).max_concurrent_installs,
                self.current_installs == old(self).current_installs + 1,
                old(self).package_cache.view().contains_key(package_id@),
                package == old(self).package_cache.view()[package_id@],
                chunks_placeable(package.chunks@),
                total_chunks == package.chunks@.len(),
                i <= package.chunks@.len(),
                self.memory@ == install_writes(old(self).memory@, package.chunks@, i as nat),
                installation.installed_chunks@ == chunk_ids(package.chunks@).take(i as int),
                installation.package_id == package.package_id,
                installation.title_id == package.title_id,
                installation.title_name == package.title_name,
                installation.version == package.version,
                installation.install_path@ == old(self).install_base_path@ + "/"@ + package.title_id@ + "/"@,
                installation.install_size == chunks_size(package.chunks@),
                installation.installation_time == now,
                installation.last_played == 0,
                installation.play_time_seconds == 0,
                installation.achievements_unlocked@.len() == 0,
                installation.save_files@.len() == 0,
                installation.patches@.len() == 0,
            decreases package.chunks@.len() - i,
        {
            let chunk = &package.chunks[i];
            let address = INSTALL_BASE_ADDRESS + i as u64 * SLOT_SIZE;
            let ghost before = self.memory@;
            let mut j: usize = 0;
            while j < chunk.data.len()
                invariant
                    self.memory.wf(),
                    self.installations == old(self).installations,
                    self.package_cache == old(self).package_cache,
                    self.install_base_path == old(self).install_base_path,
                    self.max_concurrent_installs == old(self).max_concurrent_installs,
                    self.current_installs == old(self).current_installs + 1,
                    j <= chunk.data@.len(),
                    address + chunk.data@.len() <= u64::MAX,
                    self.memory@ == write_block(before, address as int, chunk.data@.take(j as int)),
                decreases chunk.data@.len() - j,
            {
                let _ = self.memory.write8(address + j as u64, chunk.data[j]);
                proof {
                    assert(chunk.data@.take(j + 1).drop_last() =~= chunk.data@.take(j as int));
                }
                j = j + 1;
            }
            proof {
                assert(chunk.data@.take(j as int) =~= chunk.data@);
            }
            installation.installed_chunks.push(chunk.chunk_id);
            proof {
                assert(installation.installed_chunks@ =~= chunk_ids(package.chunks@).take(i + 1));
            }
            proof {
                let n = i as int + 1;
                let t = total_chunks as int;
                assert(n * 100 / t <= 100) by (nonlinear_arith)
                    requires
                        0 < n <= t,
                ;
                assert(n * 100 <= t * 100) by (nonlinear_arith)
                    requires
                        0 < n <= t,
                ;
            }
            let progress = ((i as u64 + 1) * 100 / total_chunks) as u32;
            installation.install_status = InstallStatus::Installing {
                progress,
                current_chunk: chunk.chunk_id,
            };
            i = i + 1;
        }
        proof {
            assert(installation.installed_chunks@ =~= chunk_ids(package.chunks@));
        }
        installation.install_status = InstallStatus::Installed {
            install_path: installation.install_path.clone(),
        };
        let key = package.package_id.clone();
        self.installations.insert(key, installation);
        self.current_installs = self.current_installs - 1;
        Ok(())
    }
}


/// Placement of the files that a patch adds stays inside 64-bit addresses.
pub open spec fn changes_placeable(changes: Seq<PatchChange>) -> bool {
    forall|i: int| #![trigger changes[i]]
        0 <= i < changes.len() ==> PATCH_BASE_ADDRESS + i * SLOT_SIZE + change_size(changes[i]) <= u64::MAX
}

/// The installation after a patch: its version is the patch's, the patch is
/// recorded, and the status is `Failed { "Update incomplete" }`.
pub open spec fn is_patched(new: GameInstallation, old: GameInstallation, patch: GamePatch) -> bool {
    &&& new.package_id == old.package_id
    &&& new.title_id == old.title_id
    &&& new.title_name == old.title_name
    &&& new.version == patch.version
    &&& new.install_status matches InstallStatus::Failed { error } && error@ == "Update incomplete"@
    &&& new.install_size == old.install_size
    &&& new.installed_chunks == old.installed_chunks
    &&& new.install_path == old.install_path
    &&& new.installation_time == old.installation_time
    &&& new.last_played == old.last_played
    &&& new.play_time_seconds == old.play_time_seconds
    &&& new.achievements_unlocked == old.achievements_unlocked
    &&& new.save_files == old.save_files
    &&& new.patches@ == old.patches@.push(patch)
}

/// The installation after `seconds` more of play, last played at `now`.
pub open spec fn is_played(new: GameInstallation, old: GameInstallation, seconds: u64, now: u64) -> bool {
    &&& new.package_id == old.package_id
    &&& new.title_id == old.title_id
    &&& new.title_name == old.title_name
    &&& new.version == old.version
    &&& new.install_status == old.install_status
    &&& new.install_size == old.install_size
    &&& new.installed_chunks == old.installed_chunks
    &&& new.install_path == old.install_path
    &&& new.installation_time == old.installation_time
    &&& new.last_played == now
    &&& new.play_time_seconds == old.play_time_seconds + seconds
    &&& new.achievements_unlocked == old.achievements_unlocked
    &&& new.save_files == old.save_files
    &&& new.patches == old.patches
}

/// The installation after `save` replaced the saves of `profile`.
pub open spec fn is_saved(new: GameInstallation, old: GameInstallation, profile: Seq<char>, save: GameSaveData) -> bool {
    &&& new.package_id == old.package_id
    &&& new.title_id == old.title_id
    &&& new.title_name == old.title_name
    &&& new.version == old.version
    &&& new.install_status == old.install_status
    &&& new.install_size == old.install_size
    &&& new.installed_chunks == old.installed_chunks
    &&& new.install_path == old.install_path
    &&& new.installation_time == old.installation_time
    &&& new.last_played == old.last_played
    &&& new.play_time_seconds == old.play_time_seconds
    &&& new.achievements_unlocked == old.achievements_unlocked
    &&& new.save_files@ == other_profiles(old.save_files@, profile).push(save)
    &&& new.patches == old.patches
}

/// Saving `save` for `profile` into the installation `id`: refused with
/// "Installation not found" when there is none; otherwise the save's bytes are
/// written to the next save slot and the save replaces those of the profile.
pub open spec fn save_outcome(a: Installer, b: Installer, id: Seq<char>, profile: Seq<char>, save: GameSaveData, r: Result<(), String>) -> bool {
    if !a.installations.view().contains_key(id) {
        &&& r matches Err(e) && e@ == "Installation not found"@
        &&& b == a
    } else {
        let old_inst = a.installations.view()[id];
        let kept = other_profiles(old_inst.save_files@, profile);
        &&& r is Ok
        &&& same_setup(b, a)
        &&& b.memory@ == write_block(a.memory@, SAVE_BASE_ADDRESS + kept.len() * SLOT_SIZE, save.data@)
        &&& b.installations.view().contains_key(id)
        &&& b.installations.view() == a.installations.view().insert(id, b.installations.view()[id])
        &&& is_saved(b.installations.view()[id], old_inst, profile, save)
    }
}

/// `b` is `a` with `package` cached under its package id.
pub open spec fn registered(a: Installer, b: Installer, package: GamePackage) -> bool {
    &&& b.package_cache.view() == a.package_cache.view().insert(package.package_id@, package)
    &&& b.installations == a.installations
    &&& b.memory == a.memory
    &&& b.install_base_path == a.install_base_path
    &&& b.max_concurrent_installs == a.max_concurrent_installs
    &&& b.current_installs == a.current_installs
}

/// The data of the first save of `profile`, if any.
pub open spec fn find_save(saves: Seq<GameSaveData>, profile: Seq<char>) -> Option<Seq<u8>>
    decreases saves.len(),
{
    if saves.len() == 0 {
        None
    } else if saves[0].profile_id@ == profile {
        Some(saves[0].data@)
    } else {
        find_save(saves.drop_first(), profile)
    }
}

/// The text of each installed game: its title, `" - "`, and its version.
pub open spec fn installed_game_text(inst: GameInstallation) -> Seq<char> {
    inst.title_name@ + " - "@ + inst.version@
}

impl Installer {
    /// Applies `patch` to the installation `package_id`: the files it adds are
    /// written to memory, one slot per change; the installation takes the patch's
    /// version and records it.
    pub fn apply_patch(&mut self, package_id: &str, patch: GamePatch) -> (r: Result<(), String>)
        requires
            old(self).wf(),
            changes_placeable(patch.changes@),
        ensures
            final(self).wf(),
            !old(self).installations.view().contains_key(package_id@) ==> {
                &&& r matches Err(e) && e@ == "Installation not found"@
                &&& *final(self) == *old(self)
            },
            old(self).installations.view().contains_key(package_id@) ==> {
                &&& r is Ok
                &&& same_setup(*final(self), *old(self))
                &&& final(self).memory@ == patch_writes(old(self).memory@, patch.changes@, patch.changes@.len())
                &&& final(self).installations.view().contains_key(package_id@)
                &&& final(self).installations.view() == old(self).installations.view().insert(
                    package_id@,
                    final(self).installations.view()[package_id@],
                )
                &&& is_patched(
                    final(self).installations.view()[package_id@],
                    old(self).installations.view()[package_id@],
                    patch,
                )
            },
    {
        let mut installation = match self.installations.remove(package_id) {
            Some(inst) => inst,
            None => {
                return Err(error("Installation not found"));
            },
        };
        let ghost inst0 = installation;
        installation.install_status = InstallStatus::Updating { progress: 0 };
        let total_changes = patch.changes.len() as u64;
        let mut i: usize = 0;
        while i < patch.changes.len()
            invariant
                self.memory.wf(),
                self.installations.wf(),
                self.installations.view() == old(self).installations.view().remove(package_id@),
                self.package_cache == old(self).package_cache,
                self.install_base_path == old(self).install_base_path,
                self.max_concurrent_installs == old(self).max_concurrent_installs,
                self.current_installs == old(self).current_installs,
                changes_placeable(patch.changes@),
                total_changes == patch.changes@.len(),
                i <= patch.changes@.len(),
                self.memory@ == patch_writes(old(self).memory@, patch.changes@, i as nat),
                installation.package_id == inst0.package_id,
                installation.title_id == inst0.title_id,
                installation.title_name == inst0.title_name,
                installation.version == inst0.version,
                installation.install_size == inst0.install_size,
                installation.installed_chunks == inst0.installed_chunks,
                installation.install_path == inst0.install_path,
                installation.installation_time == inst0.installation_time,
                installation.last_played == inst0.last_played,
                installation.play_time_seconds == inst0.play_time_seconds,
                installation.achievements_unlocked == inst0.achievements_unlocked,
                installation.save_files == inst0.save_files,
                installation.patches == inst0.patches,
                installation.install_status matches InstallStatus::Updating { .. },
            decreases patch.changes@.len() - i,
        {
            match &patch.changes[i] {
                PatchChange::AddFile { path: _, data } => {
                    let address = PATCH_BASE_ADDRESS + i as u64 * SLOT_SIZE;
                    let ghost before = self.memory@;
                    let mut j: usize = 0;
                    while j < data.len()
                        invariant
                            self.memory.wf(),
                            self.installations.wf(),
                            self.installations.view() == old(self).installations.view().remove(package_id@),
                            self.package_cache == old(self).package_cache,
                            self.install_base_path == old(self).install_base_path,
                            self.max_concurrent_installs == old(self).max_concurrent_installs,
                            self.current_installs == old(self).current_installs,
                            j <= data@.len(),
                            address + data@.len() <= u64::MAX,
                            self.memory@ == write_block(before, address as int, data@.take(j as int)),
                        decreases data@.len() - j,
                    {
                        let _ = self.memory.write8(address + j as u64, data[j]);
                        proof {
                            assert(data@.take(j + 1).drop_last() =~= data@.take(j as int));
                        }
                        j = j + 1;
                    }
                    proof {
                        assert(data@.take(j as int) =~= data@);
                    }
                },
                _ => {},
            }
            proof {
                let n = i as int + 1;
                let t = total_changes as int;
                assert(n * 100 / t <= 100) by (nonlinear_arith)
                    requires
                        0 < n <= t,
                ;
                assert(n * 100 <= t * 100) by (nonlinear_arith)
                    requires
                        0 < n <= t,
                ;
            }
            let progress = ((i as u64 + 1) * 100 / total_changes) as u32;
            installation.install_status = InstallStatus::Updating { progress };
            i = i + 1;
        }
        installation.version = patch.version.clone();
        installation.patches.push(patch);
        let next_status = match &installation.install_status {
            InstallStatus::Installed { install_path } => InstallStatus::Installed {
                install_path: install_path.clone(),
            },
            _ => InstallStatus::Failed { error: error("Update incomplete") },
        };
        installation.install_status = next_status;
        proof {
            assert(installation.install_status matches InstallStatus::Failed { .. });
        }
        self.installations.insert(String::from_str(package_id), installation);
        proof {
            assert(self.installations.view() =~= old(self).installations.view().insert(
                package_id@,
                self.installations.view()[package_id@],
            ));
        }
        Ok(())
    }

    /// Removes the installation `package_id`, zeroing one memory slot per
    /// installed chunk.
    pub fn uninstall_package(&mut self, package_id: &str) -> (r: Result<(), String>)
        requires
            old(self).wf(),
            old(self).installations.view().contains_key(package_id@) ==> INSTALL_BASE_ADDRESS
                + old(self).installations.view()[package_id@].installed_chunks@.len() * SLOT_SIZE
                <= u64::MAX,
        ensures
            final(self).wf(),
            !old(self).installations.view().contains_key(package_id@) ==> {
                &&& r matches Err(e) && e@ == "Package not installed"@
                &&& *final(self) == *old(self)
            },
            old(self).installations.view().contains_key(package_id@) ==> {
                &&& r is Ok
                &&& same_setup(*final(self), *old(self))
                &&& final(self).memory@ == clear_slots(
                    old(self).memory@,
                    old(self).installations.view()[package_id@].installed_chunks@.len(),
                )
                &&& final(self).installations.view() == old(self).installations.view().remove(package_id@)
            },
    {
        if !self.installations.contains_key(package_id) {
            return Err(error("Package not installed"));
        }
        let count = match self.installations.get(package_id) {
            Some(inst) => inst.installed_chunks.len(),
            None => 0,
        };
        let mut i: usize = 0;
        while i < count
            invariant
                self.memory.wf(),
                self.installations == old(self).installations,
                self.package_cache == old(self).package_cache,
                self.install_base_path == old(self).install_base_path,
                self.max_concurrent_installs == old(self).max_concurrent_installs,
                self.current_installs == old(self).current_installs,
                count == old(self).installations.view()[package_id@].installed_chunks@.len(),
                INSTALL_BASE_ADDRESS + count * SLOT_SIZE <= u64::MAX,
                i <= count,
                self.memory@ == clear_slots(old(self).memory@, i as nat),
            decreases count - i,
        {
            let address = INSTALL_BASE_ADDRESS + i as u64 * SLOT_SIZE;
            let ghost before = self.memory@;
            let ghost zeros = Seq::new(SLOT_SIZE as nat, |j: int| 0u8);
            let mut j: u64 = 0;
            while j < SLOT_SIZE
                invariant
                    self.memory.wf(),
                    self.installations == old(self).installations,
                    self.package_cache == old(self).package_cache,
                    self.install_base_path == old(self).install_base_path,
                    self.max_concurrent_installs == old(self).max_concurrent_installs,
                    self.current_installs == old(self).current_installs,
                    j <= SLOT_SIZE,
                    address + SLOT_SIZE <= u64::MAX,
                    zeros == Seq::new(SLOT_SIZE as nat, |j: int| 0u8),
                    self.memory@ == write_block(before, address as int, zeros.take(j as int)),
                decreases SLOT_SIZE - j,
            {
                let _ = self.memory.write8(address + j, 0);
                proof {
                    assert(zeros.take(j + 1).drop_last() =~= zeros.take(j as int));
                }
                j = j + 1;
            }
            proof {
                assert(zeros.take(j as int) =~= zeros);
            }
            i = i + 1;
        }
        self.installations.remove(package_id);
        Ok(())
    }

    /// The installation `package_id`, if any.
    pub fn get_installation(&self, package_id: &str) -> (r: Option<&GameInstallation>)
        requires
            self.wf(),
        ensures
            match r {
                Some(inst) => self.installations.view().contains_key(package_id@)
                    && self.installations.view()[package_id@] == *inst,
                None => !self.installations.view().contains_key(package_id@),
            },
    {
        self.installations.get(package_id)
    }

    /// All installations.
    pub fn get_all_installations(&self) -> (r: Vec<&GameInstallation>)
        ensures
            r@.len() == self.installations.entries().len(),
            forall|i: int| 0 <= i < r@.len() ==> *r@[i] == self.installations.entries()[i].1,
    {
        self.installations.values()
    }

    /// `"<title> - <version>"` for every installation.
    pub fn get_installed_games(&self) -> (r: Vec<String>)
        ensures
            r@.len() == self.installations.entries().len(),
            forall|i: int| 0 <= i < r@.len() ==> r@[i]@ == installed_game_text(
                self.installations.entries()[i].1,
            ),
    {
        let all = self.installations.values();
        let mut r: Vec<String> = Vec::new();
        let mut i: usize = 0;
        while i < all.len()
            invariant
                all@.len() == self.installations.entries().len(),
                forall|k: int| 0 <= k < all@.len() ==> *all@[k] == self.installations.entries()[k].1,
                i <= all@.len(),
                r@.len() == i,
                forall|k: int| 0 <= k < i ==> r@[k]@ == installed_game_text(self.installations.entries()[k].1),
            decreases all@.len() - i,
        {
            let inst = all[i];
            let mut text = inst.title_name.clone();
            text.append(" - ");
            text.append(inst.version.as_str());
            r.push(text);
            i = i + 1;
        }
        r
    }

    /// Adds `seconds` of play to the installation `package_id`, last played now.
    pub fn update_play_time(&mut self, package_id: &str, seconds: u64) -> (r: Result<(), String>)
        requires
            old(self).wf(),
            old(self).installations.view().contains_key(package_id@) ==> old(self).installations.view()[package_id@].play_time_seconds
                + seconds <= u64::MAX,
        ensures
            final(self).wf(),
            exists|now: u64| play_time_outcome(*old(self), *final(self), package_id@, seconds, now, r),
    {
        let now = now_unix_secs();
        self.update_play_time_at(package_id, seconds, now)
    }

    /// Adds `seconds` of play to the installation `package_id`, last played at `now`.
    pub fn update_play_time_at(&mut self, package_id: &str, seconds: u64, now: u64) -> (r: Result<(), String>)
        requires
            old(self).wf(),
            old(self).installations.view().contains_key(package_id@) ==> old(self).installations.view()[package_id@].play_time_seconds
                + seconds <= u64::MAX,
        ensures
            final(self).wf(),
            play_time_outcome(*old(self), *final(self), package_id@, seconds, now, r),
    {
        let mut installation = match self.installations.remove(package_id) {
            Some(inst) => inst,
            None => {
                return Err(error("Installation not found"));
            },
        };
        installation.play_time_seconds = installation.play_time_seconds + seconds;
        installation.last_played = now;
        self.installations.insert(String::from_str(package_id), installation);
        proof {
            assert(self.installations.view() =~= old(self).installations.view().insert(
                package_id@,
                self.installations.view()[package_id@],
            ));
        }
        Ok(())
    }

    /// Stores `save_data` in the installation `package_id`, replacing the saves of
    /// `profile_id`; its bytes are written to the save slot after the remaining saves.
    pub fn save_game(&mut self, package_id: &str, profile_id: &str, save_data: GameSaveData) -> (r: Result<(), String>)
        requires
            old(self).wf(),
            old(self).installations.view().contains_key(package_id@) ==> SAVE_BASE_ADDRESS
                + old(self).installations.view()[package_id@].save_files@.len() * SLOT_SIZE
                + save_data.data@.len() <= u64::MAX,
        ensures
            final(self).wf(),
            save_outcome(*old(self), *final(self), package_id@, profile_id@, save_data, r),
    {
        let mut installation = match self.installations.remove(package_id) {
            Some(inst) => inst,
            None => {
                return Err(error("Installation not found"));
            },
        };
        let ghost inst0 = installation;
        let mut remaining = installation.save_files;
        let mut kept: Vec<GameSaveData> = Vec::new();
        let ghost all = remaining@;
        let n = remaining.len();
        let mut k: usize = 0;
        while remaining.len() > 0
            invariant
                k <= all.len(),
                remaining@ == all.skip(k as int),
                remaining@.len() == all.len() - k,
                all.len() == n,
                kept@ == other_profiles(all.take(k as int), profile_id@),
            decreases remaining@.len(),
        {
            let s = remaining.remove(0);
            proof {
                assert(all.take(k + 1).drop_last() =~= all.take(k as int));
                assert(all.take(k + 1).last() == s);
                reveal_with_fuel(Seq::filter, 1);
            }
            if !str_eq(s.profile_id.as_str(), profile_id) {
                kept.push(s);
            }
            proof {
                assert(remaining@ =~= all.skip(k + 1));
            }
            k = k + 1;
        }
        proof {
            assert(all.take(k as int) =~= all);
            lemma_filter_len(all, profile_id@);
        }
        let address = SAVE_BASE_ADDRESS + kept.len() as u64 * SLOT_SIZE;
        let ghost before = self.memory@;
        let mut i: usize = 0;
        while i < save_data.data.len()
            invariant
                self.memory.wf(),
                self.installations.wf(),
                self.installations.view() == old(self).installations.view().remove(package_id@),
                self.package_cache == old(self).package_cache,
                self.install_base_path == old(self).install_base_path,
                self.max_concurrent_installs == old(self).max_concurrent_installs,
                self.current_installs == old(self).current_installs,
                i <= save_data.data@.len(),
                address + save_data.data@.len() <= u64::MAX,
                self.memory@ == write_block(before, address as int, save_data.data@.take(i as int)),
            decreases save_data.data@.len() - i,
        {
            let _ = self.memory.write8(address + i as u64, save_data.data[i]);
            proof {
                assert(save_data.data@.take(i + 1).drop_last() =~= save_data.data@.take(i as int));
            }
            i = i + 1;
        }
        proof {
            assert(save_data.data@.take(i as int) =~= save_data.data@);
        }
        kept.push(save_data);
        installation.save_files = kept;
        self.installations.insert(String::from_str(package_id), installation);
        proof {
            assert(self.installations.view() =~= old(self).installations.view().insert(
                package_id@,
                self.installations.view()[package_id@],
            ));
        }
        Ok(())
    }

    /// The data of the first save of `profile_id` in the installation `package_id`.
    pub fn load_save(&self, package_id: &str, profile_id: &str) -> (r: Result<Vec<u8>, String>)
        requires
            self.wf(),
        ensures
            match self.installations.view().get(package_id@) {
                None => r matches Err(e) && e@ == "Installation not found"@,
                Some(inst) => match find_save(inst.save_files@, profile_id@) {
                    Some(d) => r matches Ok(v) && v@ == d,
                    None => r matches Err(e) && e@ == "Save not found"@,
                },
            },
    {
        let installation = match self.installations.get(package_id) {
            Some(inst) => inst,
            None => {
                return Err(error("Installation not found"));
            },
        };
        let saves = &installation.save_files;
        let mut i: usize = 0;
        proof {
            assert(saves@.skip(0) =~= saves@);
        }
        while i < saves.len()
            invariant
                self.installations.view().contains_key(package_id@),
                self.installations.view()[package_id@] == *installation,
                saves == &installation.save_files,
                i <= saves@.len(),
                find_save(saves@, profile_id@) == find_save(saves@.skip(i as int), profile_id@),
            decreases saves@.len() - i,
        {
            proof {
                assert(saves@.skip(i as int).drop_first() =~= saves@.skip(i + 1));
            }
            proof {
                assert(saves@.skip(i as int)[0] == saves@[i as int]);
            }
            if str_eq(saves[i].profile_id.as_str(), profile_id) {
                let data = &saves[i].data;
                let mut copy: Vec<u8> = Vec::new();
                let mut j: usize = 0;
                while j < data.len()
                    invariant
                        j <= data@.len(),
                        copy@ == data@.take(j as int),
                    decreases data@.len() - j,
                {
                    copy.push(data[j]);
                    proof {
                        assert(data@.take(j + 1) =~= data@.take(j as int).push(data@[j as int]));
                    }
                    j = j + 1;
                }
                proof {
                    assert(data@.take(j as int) =~= data@);
                    assert(find_save(saves@.skip(i as int), profile_id@) == Some(data@));
                    assert(self.installations.view().get(package_id@) == Some(*installation));
                }
                return Ok(copy);
            }
            i = i + 1;
        }
        proof {
            assert(saves@.skip(i as int).len() == 0);
        }
        Err(error("Save not found"))
    }
}

/// The saves kept for other profiles are no more than the saves.
pub proof fn lemma_filter_len(saves: Seq<GameSaveData>, profile: Seq<char>)
    ensures
        other_profiles(saves, profile).len() <= saves.len(),
    decreases saves.len(),
{
    reveal_with_fuel(Seq::filter, 1);
    if saves.len() > 0 {
        lemma_filter_len(saves.drop_last(), profile);
    }
}

/// The outcome of adding `seconds` of play to `id` at `now`.
pub open spec fn play_time_outcome(a: Installer, b: Installer, id: Seq<char>, seconds: u64, now: u64, r: Result<(), String>) -> bool {
    if !a.installations.view().contains_key(id) {
        &&& r matches Err(e) && e@ == "Installation not found"@
        &&& b == a
    } else {
        &&& r is Ok
        &&& same_setup(b, a)
        &&& b.memory == a.memory
        &&& b.installations.view().contains_key(id)
        &&& b.installations.view() == a.installations.view().insert(id, b.installations.view()[id])
        &&& is_played(b.installations.view()[id], a.installations.view()[id], seconds, now)
    }
}

/// The outcome of installing `id` on installer `a`, giving `b`, at time `now`.
pub open spec fn install_outcome(a: Installer, b: Installer, id: Seq<char>, r: Result<(), String>, now: u64) -> bool {
    if !a.package_cache.view().contains_key(id) {
        &&& r matches Err(e) && e@ == "Package not found"@
        &&& b == a
    } else if a.current_installs >= a.max_concurrent_installs {
        &&& r matches Err(e) && e@ == "Maximum concurrent installs reached"@
        &&& b == a
    } else if a.installations.view().contains_key(id) {
        &&& r matches Err(e) && e@ == "Package already installed"@
        &&& b == a
    } else {
        let p = a.package_cache.view()[id];
        if p.chunks@.len() > 0 && !(forall|i: int| 0 <= i < p.chunks@.len() ==> chunk_intact(#[trigger] p.chunks@[i])) {
            &&& r matches Err(e) && e@ == "Integrity check failed"@
            &&& b == a
        } else {
            &&& r is Ok
            &&& same_setup(b, a)
            &&& b.memory@ == install_writes(a.memory@, p.chunks@, p.chunks@.len())
            &&& b.installations.view().contains_key(p.package_id@)
            &&& is_fresh_installation(b.installations.view()[p.package_id@], p, a.install_base_path@, now)
            &&& b.installations.view() == a.installations.view().insert(
                p.package_id@,
                b.installations.view()[p.package_id@],
            )
        }
    }
}

} // verus!

verus! {

/// Looking up a profile in saves that do not hold it, followed by one save of it,
/// finds that save.
proof fn lemma_find_last_save(saves: Seq<GameSaveData>, save: GameSaveData, profile: Seq<char>)
    requires
        forall|i: int| 0 <= i < saves.len() ==> (#[trigger] saves[i]).profile_id@ != profile,
        save.profile_id@ == profile,
    ensures
        find_save(saves.push(save), profile) == Some(save.data@),
    decreases saves.len(),
{
    if saves.len() > 0 {
        assert(saves.push(save).drop_first() =~= saves.drop_first().push(save));
        assert(saves[0].profile_id@ != profile);
        lemma_find_last_save(saves.drop_first(), save, profile);
    } else {
        assert(saves.push(save)[0] == save);
    }
}

/// What a save writes is what a load of the same profile reads back: after
/// `save_game(id, profile, s)` succeeds with `s` saved for `profile`, the
/// installation holds exactly one save of `profile`, and `load_save(id, profile)`
/// returns the data of `s`.
pub proof fn law_load_returns_saved(old_inst: GameInstallation, new_inst: GameInstallation, profile: Seq<char>, save: GameSaveData)
    requires
        is_saved(new_inst, old_inst, profile, save),
        save.profile_id@ == profile,
    ensures
        find_save(new_inst.save_files@, profile) == Some(save.data@),
{
    let kept = other_profiles(old_inst.save_files@, profile);
    assert forall|i: int| 0 <= i < kept.len() implies (#[trigger] kept[i]).profile_id@ != profile by {
        broadcast use vstd::seq_lib::group_filter_ensures;
        assert(kept.contains(kept[i]));
    }
    lemma_find_last_save(kept, save, profile);
}

/// Installing a package that is already installed is refused: after a successful
/// `install_package(id)` of a package registered under its own id, a second
/// `install_package(id)` answers `"Package already installed"` and changes nothing.
pub proof fn law_install_twice_refused(a: Installer, b: Installer, c: Installer, id: Seq<char>, r1: Result<(), String>, r2: Result<(), String>, t1: u64, t2: u64)
    requires
        a.package_cache.view().contains_key(id),
        a.package_cache.view()[id].package_id@ == id,
        install_outcome(a, b, id, r1, t1),
        r1 is Ok,
        install_outcome(b, c, id, r2, t2),
    ensures
        r2 matches Err(e) && e@ == "Package already installed"@,
        c == b,
{
}

/// Uninstalling what was just installed leaves the installations as they were
/// before: `install_package(id)` then `uninstall_package(id)` gives back the
/// inst0 set of installations (for a package registered under its own id).
pub proof fn law_uninstall_undoes_install(a: Installer, b: Installer, id: Seq<char>, t: u64, after: Map<Seq<char>, GameInstallation>)
    requires
        a.package_cache.view().contains_key(id),
        a.package_cache.view()[id].package_id@ == id,
        install_outcome(a, b, id, Ok(()), t),
        after == b.installations.view().remove(id),
    ensures
        after == a.installations.view(),
{
    assert(after =~= a.installations.view());
}

/// Registering a package makes it the cached package of its own id.
pub proof fn law_registered_under_own_id(old_cache: Map<Seq<char>, GamePackage>, new_cache: Map<Seq<char>, GamePackage>, package: GamePackage)
    requires
        new_cache == old_cache.insert(package.package_id@, package),
    ensures
        new_cache.contains_key(package.package_id@),
        new_cache[package.package_id@].package_id@ == package.package_id@,
{
}

/// Writing a block stores each of its bytes that lies inside the memory at its
/// address, keeps the pages whole and the size, and leaves every other address
/// as it was.
pub proof fn lemma_write_block_bytes(m: MemView, base: int, data: Seq<u8>)
    requires
        pages_ok(m),
        base >= 0,
    ensures
        pages_ok(write_block(m, base, data)),
        write_block(m, base, data).size == m.size,
        forall|a: u64| #[trigger] byte_at(write_block(m, base, data), a) == (if base <= a < base + data.len() && a
            < m.size { data[a - base] } else { byte_at(m, a) }),
    decreases data.len(),
{
    if data.len() > 0 {
        let prev = data.drop_last();
        lemma_write_block_bytes(m, base, prev);
        let m1 = write_block(m, base, prev);
        let at = base + data.len() - 1;
        if 0 <= at < m1.size {
            assert forall|a: u64| #[trigger] byte_at(write_block(m, base, data), a) == (if base <= a < base
                + data.len() && a < m.size { data[a - base] } else { byte_at(m, a) }) by {
                lemma_store_bytes(m1, at as u64, data.last(), a);
                if a != at && base <= a < base + data.len() - 1 && a < m.size {
                    assert(prev[a - base] == data[a - base]);
                }
            }
            lemma_store_bytes(m1, at as u64, data.last(), 0);
        } else {
            assert forall|a: u64| #[trigger] byte_at(write_block(m, base, data), a) == (if base <= a < base
                + data.len() && a < m.size { data[a - base] } else { byte_at(m, a) }) by {
                if base <= a < base + data.len() - 1 && a < m.size {
                    assert(prev[a - base] == data[a - base]);
                }
            }
        }
    }
}

/// Uninstalling zeroes the slots of the installed chunks: after
/// `uninstall_package` removed an installation with `n` chunks, every byte of
/// the virtual RAM from `INSTALL_BASE_ADDRESS` up to `n` slots further reads 0
/// (the last slot included), and every other byte reads as before.
pub proof fn law_uninstall_zeroes_slots(m: MemView, n: nat, a: u64)
    requires
        pages_ok(m),
    ensures
        pages_ok(clear_slots(m, n)),
        clear_slots(m, n).size == m.size,
        INSTALL_BASE_ADDRESS <= a < INSTALL_BASE_ADDRESS + n * SLOT_SIZE && a < m.size ==> byte_at(
            clear_slots(m, n),
            a,
        ) == 0,
        !(INSTALL_BASE_ADDRESS <= a < INSTALL_BASE_ADDRESS + n * SLOT_SIZE && a < m.size) ==> byte_at(
            clear_slots(m, n),
            a,
        ) == byte_at(m, a),
    decreases n,
{
    if n > 0 {
        let i = n - 1;
        law_uninstall_zeroes_slots(m, i as nat, a);
        let m1 = clear_slots(m, i as nat);
        lemma_write_block_bytes(m1, INSTALL_BASE_ADDRESS + i * SLOT_SIZE, Seq::new(SLOT_SIZE as nat, |j: int| 0u8));
        assert(byte_at(clear_slots(m, n), a) == byte_at(
            write_block(m1, INSTALL_BASE_ADDRESS + i * SLOT_SIZE, Seq::new(SLOT_SIZE as nat, |j: int| 0u8)),
            a,
        ));
    }
}

/// Installing places each chunk in its own slot: after the writes of
/// `install_package` for the first `n` chunks, each no larger than a slot,
/// byte `j` of chunk `i` is at `INSTALL_BASE_ADDRESS + i * SLOT_SIZE + j`
/// (inside the virtual RAM), and the pages stay whole.
pub proof fn law_install_places_chunks(m: MemView, chunks: Seq<PackageChunk>, n: nat, i: int, j: int)
    requires
        pages_ok(m),
        n <= chunks.len(),
        forall|k: int| 0 <= k < n ==> (#[trigger] chunks[k]).data@.len() <= SLOT_SIZE,
        0 <= i < n,
        0 <= j < chunks[i].data@.len(),
        INSTALL_BASE_ADDRESS + i * SLOT_SIZE + j < m.size,
    ensures
        pages_ok(install_writes(m, chunks, n)),
        install_writes(m, chunks, n).size == m.size,
        byte_at(install_writes(m, chunks, n), (INSTALL_BASE_ADDRESS + i * SLOT_SIZE + j) as u64) == chunks[i].data@[j],
    decreases n,
{
    let k = n - 1;
    let a = (INSTALL_BASE_ADDRESS + i * SLOT_SIZE + j) as u64;
    lemma_install_writes_whole(m, chunks, k as nat);
    let m1 = install_writes(m, chunks, k as nat);
    lemma_write_block_bytes(m1, INSTALL_BASE_ADDRESS + k * SLOT_SIZE, chunks[k].data@);
    assert(byte_at(install_writes(m, chunks, n), a) == byte_at(
        write_block(m1, INSTALL_BASE_ADDRESS + k * SLOT_SIZE, chunks[k].data@),
        a,
    ));
    if i < k {
        law_install_places_chunks(m, chunks, k as nat, i, j);
        assert(chunks[i].data@.len() <= SLOT_SIZE);
    }
}

/// The writes of an installation keep the pages whole and the size.
proof fn lemma_install_writes_whole(m: MemView, chunks: Seq<PackageChunk>, n: nat)
    requires
        pages_ok(m),
        n <= chunks.len(),
    ensures
        pages_ok(install_writes(m, chunks, n)),
        install_writes(m, chunks, n).size == m.size,
    decreases n,
{
    if n > 0 {
        let k = n - 1;
        lemma_install_writes_whole(m, chunks, k as nat);
        lemma_write_block_bytes(install_writes(m, chunks, k as nat), INSTALL_BASE_ADDRESS + k * SLOT_SIZE, chunks[k].data@);
    }
}

} // verus!
