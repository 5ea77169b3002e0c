//! Game packages split in checksummed chunks, patches, and save data.
use crate::strmap::StrMap;
use crate::text::{decimal, decimal_string, join4, now_unix_secs};
use vstd::prelude::*;
use vstd::string::StringExecFns;

verus! {

/// Package type of a full game.
pub const PACKAGE_TYPE_GAME: u8 = 0x01;
/// Package type of an update.
pub const PACKAGE_TYPE_UPDATE: u8 = 0x02;
/// Package type of downloadable content.
pub const PACKAGE_TYPE_DLC: u8 = 0x03;
/// Package type of a patch.
pub const PACKAGE_TYPE_PATCH: u8 = 0x04;

/// Standard block size.
pub const BLOCK_SIZE: u64 = 4096;
/// Largest package size (100 GiB).
pub const MAX_PACKAGE_SIZE: u64 = 107374182400;

/// A game package.
#[derive(Clone, Debug)]
pub struct GamePackage {
    pub package_id: String,
    pub title_id: String,
    pub title_name: String,
    pub version: String,
    pub package_type: u8,
    pub size_bytes: u64,
    pub install_size: u64,
    pub required_firmware: String,
    pub regions: Vec<String>,
    pub languages: Vec<String>,
    pub release_date: u64,
    pub publisher: String,
    pub developer: String,
    pub genre: String,
    pub rating: String,
    pub description: String,
    pub icon_data: Vec<u8>,
    pub screenshot_previews: Vec<Vec<u8>>,
    pub metadata: StrMap<String>,
    pub compressed_data: Vec<u8>,
    pub encryption_key: Option<[u8; 32]>,
    pub signature: Option<Vec<u8>>,
    pub chunks: Vec<PackageChunk>,
    pub is_installed: bool,
    pub install_path: Option<String>,
}

/// One chunk of a package, with its checksum.
#[derive(Clone, Debug)]
pub struct PackageChunk {
    pub chunk_id: u32,
    pub offset: u64,
    pub size: u64,
    pub compressed: bool,
    pub checksum: [u8; 32],
    pub data: Vec<u8>,
}

/// A patch to an installed package.
#[derive(Clone, Debug)]
pub struct GamePatch {
    pub patch_id: String,
    pub target_package_id: String,
    pub version: String,
    pub size_bytes: u64,
    pub changes: Vec<PatchChange>,
    pub is_installed: bool,
}

/// One change that a patch makes.
#[derive(Clone, Debug)]
pub enum PatchChange {
    AddFile { path: String, data: Vec<u8> },
    ModifyFile { path: String, data: Vec<u8> },
    DeleteFile { path: String },
    AddChunk { chunk_id: u32, data: Vec<u8> },
    ModifyChunk { chunk_id: u32, data: Vec<u8> },
}

/// Saved game data of one profile.
#[derive(Clone, Debug)]
pub struct GameSaveData {
    pub save_id: String,
    pub package_id: String,
    pub profile_id: String,
    pub save_time: u64,
    pub data: Vec<u8>,
    pub metadata: StrMap<String>,
    pub screenshot: Option<Vec<u8>>,
}

/// `x` rotated left by one bit.
pub open spec fn rotl1(x: u8) -> u8 {
    ((x as int % 128) * 2 + x as int / 128) as u8
}

/// The digest after folding the byte at index `i` into `h`: the byte is added
/// (wrapping) to slot `i % 32`, which is then rotated left by one bit.
pub open spec fn hash_step(h: Seq<u8>, i: int, byte: u8) -> Seq<u8> {
    let pos = i % 32;
    h.update(pos, rotl1(((h[pos] + byte) % 256) as u8))
}

/// The digest of the first `n` bytes of `data`.
pub open spec fn hash_prefix(data: Seq<u8>, n: nat) -> Seq<u8>
    decreases n,
{
    if n == 0 {
        Seq::new(32, |i: int| 0u8)
    } else {
        hash_step(hash_prefix(data, (n - 1) as nat), n - 1, data[n - 1])
    }
}

/// The 32-byte package digest of `data`.
pub open spec fn package_hash(data: Seq<u8>) -> Seq<u8> {
    hash_prefix(data, data.len())
}

/// A chunk whose checksum is the digest of its data.
pub open spec fn chunk_intact(c: PackageChunk) -> bool {
    c.checksum@ == package_hash(c.data@)
}

/// The sum of the sizes of the chunks.
pub open spec fn chunks_size(chunks: Seq<PackageChunk>) -> nat
    decreases chunks.len(),
{
    if chunks.len() == 0 {
        0
    } else {
        (chunks_size(chunks.drop_last()) + chunks.last().size) as nat
    }
}

/// The data of the chunks, one after the other.
pub open spec fn chunks_data(chunks: Seq<PackageChunk>) -> Seq<u8>
    decreases chunks.len(),
{
    if chunks.len() == 0 {
        Seq::empty()
    } else {
        chunks_data(chunks.drop_last()) + chunks.last().data@
    }
}

/// The two packages agree on every field but the chunks and the size.
pub open spec fn same_header(a: GamePackage, b: GamePackage) -> bool {
    &&& a.package_id == b.package_id
    &&& a.title_id == b.title_id
    &&& a.title_name == b.title_name
    &&& a.version == b.version
    &&& a.package_type == b.package_type
    &&& a.install_size == b.install_size
    &&& a.required_firmware == b.required_firmware
    &&& a.regions == b.regions
    &&& a.languages == b.languages
    &&& a.release_date == b.release_date
    &&& a.publisher == b.publisher
    &&& a.developer == b.developer
    &&& a.genre == b.genre
    &&& a.rating == b.rating
    &&& a.description == b.description
    &&& a.icon_data == b.icon_data
    &&& a.screenshot_previews == b.screenshot_previews
    &&& a.metadata == b.metadata
    &&& a.compressed_data == b.compressed_data
    &&& a.encryption_key == b.encryption_key
    &&& a.signature == b.signature
    &&& a.is_installed == b.is_installed
    &&& a.install_path == b.install_path
}

/// The characters of each string of `v`.
pub open spec fn strings_view(v: Seq<String>) -> Seq<Seq<char>> {
    v.map_values(|s: String| s@)
}

/// What `GamePackage::new` builds for the given titles at time `timestamp`.
pub open spec fn is_new_package(
    p: GamePackage,
    title_id: Seq<char>,
    title_name: Seq<char>,
    version: Seq<char>,
    timestamp: u64,
) -> bool {
    &&& new_header(p, title_id, title_name, version, timestamp)
    &&& p.size_bytes == 0
    &&& p.icon_data@ == Seq::<u8>::empty()
    &&& p.metadata.wf()
    &&& p.metadata.view() == Map::<Seq<char>, String>::empty()
    &&& p.chunks@ == Seq::<PackageChunk>::empty()
}

/// The fields of a new package for the given titles at time `timestamp`, all
/// but its size, icon, metadata and chunks.
pub open spec fn new_header(
    p: GamePackage,
    title_id: Seq<char>,
    title_name: Seq<char>,
    version: Seq<char>,
    timestamp: u64,
) -> bool {
    &&& p.package_id@ == "PKG-"@ + title_id + "-"@ + decimal(timestamp as nat)
    &&& p.title_id@ == title_id
    &&& p.title_name@ == title_name
    &&& p.version@ == version
    &&& p.package_type == PACKAGE_TYPE_GAME
    &&& p.install_size == 0
    &&& p.required_firmware@ == "10.00"@
    &&& strings_view(p.regions@) == seq!["ALL"@]
    &&& strings_view(p.languages@) == seq!["en"@, "pt"@]
    &&& p.release_date == timestamp
    &&& p.publisher@ == "Unknown"@
    &&& p.developer@ == "Unknown"@
    &&& p.genre@ == "Unknown"@
    &&& p.rating@ == "RP"@
    &&& p.description@ == Seq::<char>::empty()
    &&& p.screenshot_previews@ == Seq::<Vec<u8>>::empty()
    &&& p.compressed_data@ == Seq::<u8>::empty()
    &&& p.encryption_key is None
    &&& p.signature is None
    &&& !p.is_installed
    &&& p.install_path is None
}

fn rotl1_exec(x: u8) -> (r: u8)
    ensures
        r == rotl1(x),
{
    (x % 128) * 2 + x / 128
}

fn same_digest(a: &[u8; 32], b: &[u8; 32]) -> (r: bool)
    ensures
        r == (a@ == b@),
{
    let mut i: usize = 0;
    while i < 32
        invariant
            i <= 32,
            a@.len() == 32,
            b@.len() == 32,
            forall|j: int| 0 <= j < i ==> a@[j] == b@[j],
        decreases 32 - i,
    {
        if a[i] != b[i] {
            return false;
        }
        i = i + 1;
    }
    proof {
        assert(a@ =~= b@);
    }
    true
}

impl GamePackage {
    /// A new game package stamped with the current time.
    pub fn new(title_id: String, title_name: String, version: String) -> (p: Self)
        ensures
            is_new_package(p, title_id@, title_name@, version@, p.release_date),
    {
        let timestamp = now_unix_secs();
        Self::new_at(title_id, title_name, version, timestamp)
    }

    /// A new game package stamped with `timestamp`.
    pub fn new_at(title_id: String, title_name: String, version: String, timestamp: u64) -> (p: Self)
        ensures
            is_new_package(p, title_id@, title_name@, version@, timestamp),
    {
        let stamp = decimal_string(timestamp);
        let package_id = join4("PKG-", title_id.as_str(), "-", stamp.as_str());
        let mut regions: Vec<String> = Vec::new();
        regions.push(String::from_str("ALL"));
        let mut languages: Vec<String> = Vec::new();
        languages.push(String::from_str("en"));
        languages.push(String::from_str("pt"));
        let p = GamePackage {
            package_id,
            title_id,
            title_name,
            version,
            package_type: PACKAGE_TYPE_GAME,
            size_bytes: 0,
            install_size: 0,
            required_firmware: String::from_str("10.00"),
            regions,
            languages,
            release_date: timestamp,
            publisher: String::from_str("Unknown"),
            developer: String::from_str("Unknown"),
            genre: String::from_str("Unknown"),
            rating: String::from_str("RP"),
            description: String::new(),
            icon_data: Vec::new(),
            screenshot_previews: Vec::new(),
            metadata: StrMap::new(),
            compressed_data: Vec::new(),
            encryption_key: None,
            signature: None,
            chunks: Vec::new(),
            is_installed: false,
            install_path: None,
        };
        proof {
            assert(strings_view(p.regions@) =~= seq!["ALL"@]);
            assert(strings_view(p.languages@) =~= seq!["en"@, "pt"@]);
        }
        p
    }

    /// Appends a chunk holding `data`, checksummed, at the current end of the
    /// package; returns its id (the previous number of chunks, as `u32`).
    pub fn add_chunk(&mut self, data: Vec<u8>, compressed: bool) -> (chunk_id: u32)
        requires
            old(self).size_bytes + data@.len() <= u64::MAX,
        ensures
            chunk_id == old(self).chunks@.len() as u32,
            chunk_added(*old(self), *final(self), data@, compressed),
    {
        let chunk_id = self.chunks.len() as u32;
        let checksum = self.calculate_hash(data.as_slice());
        let len = data.len() as u64;
        let chunk = PackageChunk {
            chunk_id,
            offset: self.size_bytes,
            size: len,
            compressed,
            checksum,
            data,
        };
        self.size_bytes = self.size_bytes + len;
        self.chunks.push(chunk);
        proof {
            assert(self.chunks@.drop_last() =~= old(self).chunks@);
        }
        chunk_id
    }

    /// The 32-byte digest of `data`.
    pub fn calculate_hash(&self, data: &[u8]) -> (hash: [u8; 32])
        ensures
            hash@ == package_hash(data@),
    {
        let mut hash = [0u8; 32];
        let mut i: usize = 0;
        proof {
            assert(hash@ =~= hash_prefix(data@, 0));
        }
        while i < data.len()
            invariant
                i <= data@.len(),
                hash@ == hash_prefix(data@, i as nat),
                hash@.len() == 32,
            decreases data@.len() - i,
        {
            let pos = i % 32;
            let v = rotl1_exec(hash[pos].wrapping_add(data[i]));
            hash[pos] = v;
            proof {
                assert(hash@ =~= hash_step(hash_prefix(data@, i as nat), i as int, data@[i as int]));
            }
            i = i + 1;
        }
        hash
    }

    /// Whether every chunk's checksum is the digest of its data.
    pub fn verify_integrity(&self) -> (ok: bool)
        ensures
            ok == (forall|i: int| 0 <= i < self.chunks@.len() ==> chunk_intact(#[trigger] self.chunks@[i])),
    {
        let mut i: usize = 0;
        while i < self.chunks.len()
            invariant
                i <= self.chunks@.len(),
                forall|j: int| 0 <= j < i ==> chunk_intact(#[trigger] self.chunks@[j]),
            decreases self.chunks@.len() - i,
        {
            let calculated = self.calculate_hash(self.chunks[i].data.as_slice());
            if !same_digest(&calculated, &self.chunks[i].checksum) {
                assert(!chunk_intact(self.chunks@[i as int]));
                return false;
            }
            i = i + 1;
        }
        true
    }

    /// The sum of the sizes of the chunks.
    pub fn get_total_size(&self) -> (total: u64)
        requires
            chunks_size(self.chunks@) <= u64::MAX,
        ensures
            total == chunks_size(self.chunks@),
    {
        let mut total: u64 = 0;
        let mut i: usize = 0;
        while i < self.chunks.len()
            invariant
                i <= self.chunks@.len(),
                total == chunks_size(self.chunks@.take(i as int)),
                chunks_size(self.chunks@) <= u64::MAX,
            decreases self.chunks@.len() - i,
        {
            proof {
                assert(self.chunks@.take(i + 1).drop_last() =~= self.chunks@.take(i as int));
                lemma_chunks_size_prefix(self.chunks@, i as int + 1);
            }
            total = total + self.chunks[i].size;
            i = i + 1;
        }
        proof {
            assert(self.chunks@.take(i as int) =~= self.chunks@);
        }
        total
    }

    /// The data of all chunks, one after the other.
    pub fn extract_data(&self) -> (data: Vec<u8>)
        ensures
            data@ == chunks_data(self.chunks@),
    {
        let mut result: Vec<u8> = Vec::new();
        let mut i: usize = 0;
        while i < self.chunks.len()
            invariant
                i <= self.chunks@.len(),
                result@ == chunks_data(self.chunks@.take(i as int)),
            decreases self.chunks@.len() - i,
        {
            let chunk = &self.chunks[i];
            let mut j: usize = 0;
            let ghost before = result@;
            while j < chunk.data.len()
                invariant
                    j <= chunk.data@.len(),
                    result@ == before + chunk.data@.take(j as int),
                decreases chunk.data@.len() - j,
            {
                result.push(chunk.data[j]);
                proof {
                    assert(chunk.data@.take(j + 1) =~= chunk.data@.take(j as int).push(chunk.data@[j as int]));
                }
                j = j + 1;
            }
            proof {
                assert(chunk.data@.take(j as int) =~= chunk.data@);
                assert(self.chunks@.take(i + 1).drop_last() =~= self.chunks@.take(i as int));
            }
            i = i + 1;
        }
        proof {
            assert(self.chunks@.take(i as int) =~= self.chunks@);
        }
        result
    }
}

/// The size of a prefix of the chunks is at most the size of them all.
pub proof fn lemma_chunks_size_prefix(chunks: Seq<PackageChunk>, n: int)
    requires
        0 <= n <= chunks.len(),
    ensures
        chunks_size(chunks.take(n)) <= chunks_size(chunks),
    decreases chunks.len() - n,
{
    if n < chunks.len() {
        lemma_chunks_size_prefix(chunks, n + 1);
        assert(chunks.take(n + 1).drop_last() =~= chunks.take(n));
    } else {
        assert(chunks.take(n) =~= chunks);
    }
}

/// `new` is `old` after appending a chunk holding `data`: the header is kept,
/// the size grows by the length of `data`, and the new last chunk is numbered
/// by the old number of chunks, starts at the old size, and carries `data`, its
/// length, `compressed` and the digest of `data`.
pub open spec fn chunk_added(old: GamePackage, new: GamePackage, data: Seq<u8>, compressed: bool) -> bool {
    &&& same_header(new, old)
    &&& new.size_bytes == old.size_bytes + data.len()
    &&& new.chunks@.len() == old.chunks@.len() + 1
    &&& new.chunks@.drop_last() == old.chunks@
    &&& ({
        let c = new.chunks@.last();
        &&& c.chunk_id == old.chunks@.len() as u32
        &&& c.offset == old.size_bytes
        &&& c.size == data.len()
        &&& c.compressed == compressed
        &&& c.checksum@ == package_hash(data)
        &&& c.data@ == data
    })
}

/// The total length of the byte strings.
pub open spec fn total_len(ds: Seq<Seq<u8>>) -> nat
    decreases ds.len(),
{
    if ds.len() == 0 {
        0
    } else {
        total_len(ds.drop_last()) + ds.last().len()
    }
}

/// The byte strings, one after the other.
pub open spec fn concat(ds: Seq<Seq<u8>>) -> Seq<u8>
    decreases ds.len(),
{
    if ds.len() == 0 {
        Seq::empty()
    } else {
        concat(ds.drop_last()) + ds.last()
    }
}

/// The chunks are those made by appending `ds` with the flags `flags`, in order:
/// chunk `k` is numbered `k`, starts after the first `k` strings, and holds
/// `ds[k]`, its length, `flags[k]` and its digest.
pub open spec fn added_in_order(chunks: Seq<PackageChunk>, ds: Seq<Seq<u8>>, flags: Seq<bool>) -> bool {
    &&& chunks.len() == ds.len()
    &&& flags.len() == ds.len()
    &&& forall|k: int| 0 <= k < chunks.len() ==> {
        &&& (#[trigger] chunks[k]).chunk_id == k as u32
        &&& chunks[k].offset == total_len(ds.take(k))
        &&& chunks[k].size == ds[k].len()
        &&& chunks[k].data@ == ds[k]
        &&& chunks[k].compressed == flags[k]
        &&& chunk_intact(chunks[k])
    }
}

/// The number of bytes a change carries.
pub open spec fn change_size(c: PatchChange) -> nat {
    match c {
        PatchChange::AddFile { data, .. } => data@.len(),
        PatchChange::ModifyFile { data, .. } => data@.len(),
        PatchChange::DeleteFile { .. } => 0,
        PatchChange::AddChunk { data, .. } => data@.len(),
        PatchChange::ModifyChunk { data, .. } => data@.len(),
    }
}

/// The bytes the changes carry, all together.
pub open spec fn changes_size(cs: Seq<PatchChange>) -> nat
    decreases cs.len(),
{
    if cs.len() == 0 {
        0
    } else {
        changes_size(cs.drop_last()) + change_size(cs.last())
    }
}

/// `new` is `old` after appending `change`: the patch grows by the bytes the
/// change carries, and nothing else changes.
pub open spec fn change_added(old: GamePatch, new: GamePatch, change: PatchChange) -> bool {
    &&& new.size_bytes == old.size_bytes + change_size(change)
    &&& new.changes@ == old.changes@.push(change)
    &&& new.patch_id == old.patch_id
    &&& new.target_package_id == old.target_package_id
    &&& new.version == old.version
    &&& new.is_installed == old.is_installed
}

impl GamePatch {
    /// An empty patch of `target_package_id` to `version`.
    pub fn new(target_package_id: String, version: String) -> (p: Self)
        ensures
            p.patch_id@ == "PATCH-"@ + target_package_id@ + "-"@ + version@,
            p.target_package_id@ == target_package_id@,
            p.version@ == version@,
            p.size_bytes == 0,
            p.changes@ == Seq::<PatchChange>::empty(),
            !p.is_installed,
    {
        let patch_id = join4("PATCH-", target_package_id.as_str(), "-", version.as_str());
        GamePatch {
            patch_id,
            target_package_id,
            version,
            size_bytes: 0,
            changes: Vec::new(),
            is_installed: false,
        }
    }

    /// Appends `change`; the patch grows by the bytes the change carries.
    pub fn add_change(&mut self, change: PatchChange)
        requires
            old(self).size_bytes + change_size(change) <= u64::MAX,
        ensures
            change_added(*old(self), *final(self), change),
    {
        match &change {
            PatchChange::AddFile { data, .. } => {
                self.size_bytes = self.size_bytes + data.len() as u64;
            },
            PatchChange::ModifyFile { data, .. } => {
                self.size_bytes = self.size_bytes + data.len() as u64;
            },
            PatchChange::DeleteFile { .. } => {},
            PatchChange::AddChunk { data, .. } => {
                self.size_bytes = self.size_bytes + data.len() as u64;
            },
            PatchChange::ModifyChunk { data, .. } => {
                self.size_bytes = self.size_bytes + data.len() as u64;
            },
        }
        self.changes.push(change);
    }
}

/// What `GameSaveData::new` builds at time `timestamp`.
pub open spec fn is_new_save(s: GameSaveData, package_id: Seq<char>, profile_id: Seq<char>, timestamp: u64) -> bool {
    &&& s.save_id@ == "SAVE-"@ + package_id + "-"@ + decimal(timestamp as nat)
    &&& s.package_id@ == package_id
    &&& s.profile_id@ == profile_id
    &&& s.save_time == timestamp
    &&& s.data@ == Seq::<u8>::empty()
    &&& s.metadata.wf()
    &&& s.metadata.view() == Map::<Seq<char>, String>::empty()
    &&& s.screenshot is None
}

impl GameSaveData {
    /// Empty save data of `profile_id` for `package_id`, stamped with the current time.
    pub fn new(package_id: String, profile_id: String) -> (s: Self)
        ensures
            is_new_save(s, package_id@, profile_id@, s.save_time),
    {
        let timestamp = now_unix_secs();
        Self::new_at(package_id, profile_id, timestamp)
    }

    /// Empty save data of `profile_id` for `package_id`, stamped with `timestamp`.
    pub fn new_at(package_id: String, profile_id: String, timestamp: u64) -> (s: Self)
        ensures
            is_new_save(s, package_id@, profile_id@, timestamp),
    {
        let stamp = decimal_string(timestamp);
        let save_id = join4("SAVE-", package_id.as_str(), "-", stamp.as_str());
        GameSaveData {
            save_id,
            package_id,
            profile_id,
            save_time: timestamp,
            data: Vec::new(),
            metadata: StrMap::new(),
            screenshot: None,
        }
    }

    /// Records `value` under `key` in the metadata, replacing a previous value.
    pub fn add_metadata(&mut self, key: String, value: String)
        requires
            old(self).metadata.wf(),
        ensures
            final(self).metadata.wf(),
            final(self).metadata.view() == old(self).metadata.view().insert(key@, value),
            final(self).save_id == old(self).save_id,
            final(self).package_id == old(self).package_id,
            final(self).profile_id == old(self).profile_id,
            final(self).save_time == old(self).save_time,
            final(self).data == old(self).data,
            final(self).screenshot == old(self).screenshot,
    {
        self.metadata.insert(key, value);
    }

    /// Replaces the saved bytes.
    pub fn set_data(&mut self, data: Vec<u8>)
        ensures
            final(self).data@ == data@,
            final(self).save_id == old(self).save_id,
            final(self).package_id == old(self).package_id,
            final(self).profile_id == old(self).profile_id,
            final(self).save_time == old(self).save_time,
            final(self).metadata == old(self).metadata,
            final(self).screenshot == old(self).screenshot,
    {
        self.data = data;
    }
}


/// A package whose chunks all check out still checks out after `add_chunk`:
/// the chunk it appends carries the digest of its own data.
pub proof fn law_add_chunk_keeps_integrity(old_chunks: Seq<PackageChunk>, new_chunks: Seq<PackageChunk>)
    requires
        forall|i: int| 0 <= i < old_chunks.len() ==> chunk_intact(#[trigger] old_chunks[i]),
        new_chunks.len() == old_chunks.len() + 1,
        new_chunks.drop_last() == old_chunks,
        new_chunks.last().checksum@ == package_hash(new_chunks.last().data@),
    ensures
        forall|i: int| 0 <= i < new_chunks.len() ==> chunk_intact(#[trigger] new_chunks[i]),
{
    assert forall|i: int| 0 <= i < new_chunks.len() implies chunk_intact(#[trigger] new_chunks[i]) by {
        if i < old_chunks.len() {
            assert(new_chunks[i] == new_chunks.drop_last()[i]);
        }
    }
}

/// Size accounting: when the recorded size is the sum of the chunk sizes, it stays
/// so after `add_chunk`, whose new chunk starts at the old size; so
/// `get_total_size` agrees with `size_bytes` for a package built by `new` and
/// `add_chunk`.
pub proof fn law_add_chunk_keeps_size(old_size: u64, old_chunks: Seq<PackageChunk>, new_size: u64, new_chunks: Seq<PackageChunk>, len: nat)
    requires
        old_size == chunks_size(old_chunks),
        new_size == old_size + len,
        new_chunks.len() == old_chunks.len() + 1,
        new_chunks.drop_last() == old_chunks,
        new_chunks.last().size == len,
    ensures
        new_size == chunks_size(new_chunks),
{
}

/// Extraction follows the chunks: after `add_chunk(data)`, `extract_data` gives
/// what it gave before followed by `data`.
pub proof fn law_extract_after_add(old_chunks: Seq<PackageChunk>, new_chunks: Seq<PackageChunk>, data: Seq<u8>)
    requires
        new_chunks.len() == old_chunks.len() + 1,
        new_chunks.drop_last() == old_chunks,
        new_chunks.last().data@ == data,
    ensures
        chunks_data(new_chunks) == chunks_data(old_chunks) + data,
{
}

/// A new package is empty and consistent: no chunk, size zero, and every chunk
/// (there is none) checks out.
pub proof fn law_new_package_consistent(p: GamePackage, title_id: Seq<char>, title_name: Seq<char>, version: Seq<char>, t: u64)
    requires
        is_new_package(p, title_id, title_name, version, t),
    ensures
        p.size_bytes == chunks_size(p.chunks@),
        forall|i: int| 0 <= i < p.chunks@.len() ==> chunk_intact(#[trigger] p.chunks@[i]),
        chunks_data(p.chunks@) == Seq::<u8>::empty(),
{
}

/// Appending one more chunk to chunks made in order keeps them in order.
proof fn lemma_added_step(p: GamePackage, q: GamePackage, ds: Seq<Seq<u8>>, flags: Seq<bool>, d: Seq<u8>, f: bool)
    requires
        added_in_order(p.chunks@, ds, flags),
        p.size_bytes == total_len(ds),
        chunk_added(p, q, d, f),
    ensures
        added_in_order(q.chunks@, ds.push(d), flags.push(f)),
        q.size_bytes == total_len(ds.push(d)),
{
    let ds2 = ds.push(d);
    let fs2 = flags.push(f);
    assert(ds2.drop_last() =~= ds);
    assert(ds2.take(ds.len() as int) =~= ds);
    assert forall|k: int| 0 <= k < q.chunks@.len() implies {
        &&& (#[trigger] q.chunks@[k]).chunk_id == k as u32
        &&& q.chunks@[k].offset == total_len(ds2.take(k))
        &&& q.chunks@[k].size == ds2[k].len()
        &&& q.chunks@[k].data@ == ds2[k]
        &&& q.chunks@[k].compressed == fs2[k]
        &&& chunk_intact(q.chunks@[k])
    } by {
        if k < ds.len() {
            assert(q.chunks@[k] == q.chunks@.drop_last()[k]);
            assert(p.chunks@[k] == q.chunks@[k]);
            assert(ds2.take(k) =~= ds.take(k));
        }
    }
}

/// Chunks made in order add up: their sizes to the total length of the
/// strings, their data to the strings one after the other.
proof fn lemma_added_totals(chunks: Seq<PackageChunk>, ds: Seq<Seq<u8>>, flags: Seq<bool>)
    requires
        added_in_order(chunks, ds, flags),
    ensures
        chunks_size(chunks) == total_len(ds),
        chunks_data(chunks) == concat(ds),
    decreases chunks.len(),
{
    if chunks.len() > 0 {
        let n = chunks.len() - 1;
        assert forall|k: int| 0 <= k < n implies ds.drop_last().take(k) == ds.take(k) by {
            assert(ds.drop_last().take(k) =~= ds.take(k));
        }
        assert(added_in_order(chunks.drop_last(), ds.drop_last(), flags.drop_last())) by {
            assert forall|k: int| 0 <= k < n implies #[trigger] chunks.drop_last()[k] == chunks[k] by {}
        }
        lemma_added_totals(chunks.drop_last(), ds.drop_last(), flags.drop_last());
        assert(chunks[n] == chunks.last());
    }
}

/// A prefix of chunks made in order is made in order from the prefix of the strings.
proof fn lemma_added_prefix(chunks: Seq<PackageChunk>, ds: Seq<Seq<u8>>, flags: Seq<bool>, k: int)
    requires
        added_in_order(chunks, ds, flags),
        0 <= k <= chunks.len(),
    ensures
        added_in_order(chunks.take(k), ds.take(k), flags.take(k)),
{
    assert forall|j: int| 0 <= j < k implies ds.take(k).take(j) == ds.take(j) by {
        assert(ds.take(k).take(j) =~= ds.take(j));
    }
    assert forall|j: int| 0 <= j < k implies #[trigger] chunks.take(k)[j] == chunks[j] by {}
}

/// The packages of `ps` up to index `k` were built one chunk at a time.
proof fn lemma_added_upto(ps: Seq<GamePackage>, ds: Seq<Seq<u8>>, flags: Seq<bool>, k: int)
    requires
        ps.len() == ds.len() + 1,
        flags.len() == ds.len(),
        ps[0].size_bytes == 0,
        ps[0].chunks@.len() == 0,
        forall|i: int| #![trigger ds[i]] 0 <= i < ds.len() ==> chunk_added(ps[i], ps[i + 1], ds[i], flags[i]),
        0 <= k <= ds.len(),
    ensures
        added_in_order(ps[k].chunks@, ds.take(k), flags.take(k)),
        ps[k].size_bytes == total_len(ds.take(k)),
        same_header(ps[k], ps[0]),
    decreases k,
{
    if k > 0 {
        lemma_added_upto(ps, ds, flags, k - 1);
        let _ = ds[k - 1];
        lemma_added_step(ps[k - 1], ps[k], ds.take(k - 1), flags.take(k - 1), ds[k - 1], flags[k - 1]);
        assert(ds.take(k - 1).push(ds[k - 1]) =~= ds.take(k));
        assert(flags.take(k - 1).push(flags[k - 1]) =~= flags.take(k));
    } else {
        assert(ds.take(0) =~= Seq::<Seq<u8>>::empty());
        assert(flags.take(0) =~= Seq::<bool>::empty());
    }
}

/// A package built from an empty one by `add_chunk` with the strings `ds` (and
/// the flags `flags`), in order: chunk `k` is numbered `k`, starts where the
/// chunks before it end, has the size and data of `ds[k]` and checks out; so
/// `verify_integrity` holds, `get_total_size` equals `size_bytes`, which is the
/// total length of `ds`, and `extract_data` gives `ds` one after the other. The
/// header is that of the empty package.
pub proof fn law_add_chunks_in_order(ps: Seq<GamePackage>, ds: Seq<Seq<u8>>, flags: Seq<bool>)
    requires
        ps.len() == ds.len() + 1,
        flags.len() == ds.len(),
        ps[0].size_bytes == 0,
        ps[0].chunks@.len() == 0,
        forall|i: int| #![trigger ds[i]] 0 <= i < ds.len() ==> chunk_added(ps[i], ps[i + 1], ds[i], flags[i]),
    ensures
        ({
            let p = ps.last();
            &&& p.chunks@.len() == ds.len()
            &&& forall|k: int| 0 <= k < ds.len() ==> {
                &&& (#[trigger] p.chunks@[k]).chunk_id == k as u32
                &&& p.chunks@[k].offset == chunks_size(p.chunks@.take(k))
                &&& p.chunks@[k].offset == total_len(ds.take(k))
                &&& p.chunks@[k].size == ds[k].len()
                &&& p.chunks@[k].data@ == ds[k]
                &&& p.chunks@[k].compressed == flags[k]
            }
            &&& forall|k: int| 0 <= k < p.chunks@.len() ==> chunk_intact(#[trigger] p.chunks@[k])
            &&& p.size_bytes == total_len(ds)
            &&& chunks_size(p.chunks@) == p.size_bytes
            &&& chunks_data(p.chunks@) == concat(ds)
            &&& same_header(p, ps[0])
        }),
{
    let n = ds.len() as int;
    lemma_added_upto(ps, ds, flags, n);
    assert(ds.take(n) =~= ds);
    assert(flags.take(n) =~= flags);
    let p = ps.last();
    assert(ps[n] == p);
    lemma_added_totals(p.chunks@, ds, flags);
    assert forall|k: int| 0 <= k < ds.len() implies (#[trigger] p.chunks@[k]).offset == chunks_size(p.chunks@.take(k)) by {
        lemma_added_prefix(p.chunks@, ds, flags, k);
        lemma_added_totals(p.chunks@.take(k), ds.take(k), flags.take(k));
    }
}

/// The patches of `ps` up to index `k` were built one change at a time.
proof fn lemma_changes_upto(ps: Seq<GamePatch>, cs: Seq<PatchChange>, k: int)
    requires
        ps.len() == cs.len() + 1,
        ps[0].size_bytes == 0,
        ps[0].changes@.len() == 0,
        forall|i: int| #![trigger cs[i]] 0 <= i < cs.len() ==> change_added(ps[i], ps[i + 1], cs[i]),
        0 <= k <= cs.len(),
    ensures
        ps[k].changes@ == cs.take(k),
        ps[k].size_bytes == changes_size(cs.take(k)),
        ps[k].patch_id == ps[0].patch_id,
        ps[k].target_package_id == ps[0].target_package_id,
        ps[k].version == ps[0].version,
        ps[k].is_installed == ps[0].is_installed,
    decreases k,
{
    if k > 0 {
        lemma_changes_upto(ps, cs, k - 1);
        let _ = cs[k - 1];
        assert(cs.take(k - 1).push(cs[k - 1]) =~= cs.take(k));
        assert(cs.take(k).drop_last() =~= cs.take(k - 1));
    } else {
        assert(cs.take(0) =~= Seq::<PatchChange>::empty());
    }
}

/// A patch built from an empty one by `add_change` with the changes `cs`, in
/// order, holds exactly `cs` in that order, and its size is the number of bytes
/// they carry; its name, target, version and state are those of the empty patch.
pub proof fn law_add_changes_in_order(ps: Seq<GamePatch>, cs: Seq<PatchChange>)
    requires
        ps.len() == cs.len() + 1,
        ps[0].size_bytes == 0,
        ps[0].changes@.len() == 0,
        forall|i: int| #![trigger cs[i]] 0 <= i < cs.len() ==> change_added(ps[i], ps[i + 1], cs[i]),
    ensures
        ps.last().changes@ == cs,
        ps.last().size_bytes == changes_size(cs),
        ps.last().patch_id == ps[0].patch_id,
        ps.last().target_package_id == ps[0].target_package_id,
        ps.last().version == ps[0].version,
        ps.last().is_installed == ps[0].is_installed,
{
    let n = cs.len() as int;
    lemma_changes_upto(ps, cs, n);
    assert(cs.take(n) =~= cs);
    assert(ps[n] == ps.last());
}

} // verus!
