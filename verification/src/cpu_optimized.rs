//! The optimised multi-core CPU model: an instruction cache with
//! least-recently-used eviction, a 2-bit branch predictor, a five-stage
//! pipeline, a block compiler, and cores that run blocks of instructions read
//! from the virtual memory.
use crate::memory::{
    lemma_le_roundtrip, lemma_read_bytes_content, lemma_read_bytes_keeps, lemma_write_bytes_content, le_bytes, le_value, out_of_range_text,
    pages_ok, pow256, read_bytes, write_bytes, byte_at, MemView, VirtualMemory,
};
use crate::text::{hex2, hex2_string};
use std::collections::HashMap;
use vstd::prelude::*;
use vstd::string::StringExecFns;

verus! {

broadcast use vstd::std_specs::hash::group_hash_axioms;

/// Number of cores.
pub const NUM_CORES: usize = 8;
/// Capacity of an instruction cache.
pub const CACHE_SIZE: usize = 4096;
/// Number of pipeline stages.
pub const PIPELINE_DEPTH: usize = 5;
/// Number of 2-bit counters of the branch predictor.
pub const BRANCH_PREDICTOR_SIZE: usize = 1024;
/// Largest number of instructions in a compiled block.
pub const MAX_BLOCK_LEN: u64 = 32;

// ============================================================
// Instructions
// ============================================================

/// Kind of a decoded instruction.
#[derive(Clone, Copy, Debug, PartialEq, Eq, Structural)]
pub enum OpType {
    Load,
    Store,
    Add,
    Sub,
    Mul,
    Div,
    And,
    Or,
    Xor,
    Shl,
    Shr,
    Jump,
    Call,
    Ret,
    Cmp,
    Halt,
    Mov,
    Push,
    Pop,
    Nop,
    Simd,
    Float,
}

/// The number of an operation kind: its position in the declaration of `OpType`.
pub open spec fn op_number(op: OpType) -> u8 {
    match op {
        OpType::Load => 0,
        OpType::Store => 1,
        OpType::Add => 2,
        OpType::Sub => 3,
        OpType::Mul => 4,
        OpType::Div => 5,
        OpType::And => 6,
        OpType::Or => 7,
        OpType::Xor => 8,
        OpType::Shl => 9,
        OpType::Shr => 10,
        OpType::Jump => 11,
        OpType::Call => 12,
        OpType::Ret => 13,
        OpType::Cmp => 14,
        OpType::Halt => 15,
        OpType::Mov => 16,
        OpType::Push => 17,
        OpType::Pop => 18,
        OpType::Nop => 19,
        OpType::Simd => 20,
        OpType::Float => 21,
    }
}

/// The number of `op` (as `op as u8` gives it).
pub fn op_code(op: OpType) -> (n: u8)
    ensures
        n == op_number(op),
{
    match op {
        OpType::Load => 0,
        OpType::Store => 1,
        OpType::Add => 2,
        OpType::Sub => 3,
        OpType::Mul => 4,
        OpType::Div => 5,
        OpType::And => 6,
        OpType::Or => 7,
        OpType::Xor => 8,
        OpType::Shl => 9,
        OpType::Shr => 10,
        OpType::Jump => 11,
        OpType::Call => 12,
        OpType::Ret => 13,
        OpType::Cmp => 14,
        OpType::Halt => 15,
        OpType::Mov => 16,
        OpType::Push => 17,
        OpType::Pop => 18,
        OpType::Nop => 19,
        OpType::Simd => 20,
        OpType::Float => 21,
    }
}

/// One operand: a register, an immediate, an address, and a size in bytes.
#[derive(Clone, Copy, Debug)]
pub struct Operand {
    pub reg: Option<usize>,
    pub imm: Option<u64>,
    pub addr: Option<u64>,
    pub size: u8,
}

/// A decoded instruction.
#[derive(Clone, Debug)]
pub struct DecodedInstruction {
    pub op_type: OpType,
    pub operands: Vec<Operand>,
    pub flags: u8,
    pub cycles: u8,
}

/// Abstract decoded instruction.
pub ghost struct DecodedView {
    pub op_type: OpType,
    pub operands: Seq<Operand>,
    pub flags: u8,
    pub cycles: u8,
}

impl View for DecodedInstruction {
    type V = DecodedView;

    open spec fn view(&self) -> DecodedView {
        DecodedView { op_type: self.op_type, operands: self.operands@, flags: self.flags, cycles: self.cycles }
    }
}

/// A decoded instruction kept in the instruction cache.
#[derive(Clone, Debug)]
pub struct CachedInstruction {
    pub opcode: u8,
    pub size: u8,
    pub decoded: DecodedInstruction,
    /// Logical time of the last use (the core's cycle count); older entries are
    /// evicted first.
    pub last_used: u64,
}

/// Abstract cached instruction.
pub ghost struct CachedView {
    pub opcode: u8,
    pub size: u8,
    pub decoded: DecodedView,
    pub last_used: u64,
}

impl View for CachedInstruction {
    type V = CachedView;

    open spec fn view(&self) -> CachedView {
        CachedView { opcode: self.opcode, size: self.size, decoded: self.decoded@, last_used: self.last_used }
    }
}

/// A copy of `d`.
pub fn copy_decoded(d: &DecodedInstruction) -> (r: DecodedInstruction)
    ensures
        r@ == d@,
{
    let mut operands: Vec<Operand> = Vec::new();
    let mut i: usize = 0;
    while i < d.operands.len()
        invariant
            i <= d.operands@.len(),
            operands@ == d.operands@.take(i as int),
        decreases d.operands@.len() - i,
    {
        operands.push(d.operands[i]);
        proof {
            assert(d.operands@.take(i + 1) =~= d.operands@.take(i as int).push(d.operands@[i as int]));
        }
        i = i + 1;
    }
    proof {
        assert(d.operands@.take(i as int) =~= d.operands@);
    }
    DecodedInstruction { op_type: d.op_type, operands, flags: d.flags, cycles: d.cycles }
}

/// A copy of `c`.
pub fn copy_cached(c: &CachedInstruction) -> (r: CachedInstruction)
    ensures
        r@ == c@,
{
    CachedInstruction { opcode: c.opcode, size: c.size, decoded: copy_decoded(&c.decoded), last_used: c.last_used }
}

/// The views of the instructions.
pub open spec fn decoded_views(v: Seq<DecodedInstruction>) -> Seq<DecodedView> {
    v.map_values(|d: DecodedInstruction| d@)
}

/// A copy of the instructions.
pub fn copy_decoded_all(v: &Vec<DecodedInstruction>) -> (r: Vec<DecodedInstruction>)
    ensures
        decoded_views(r@) == decoded_views(v@),
{
    let mut r: Vec<DecodedInstruction> = Vec::new();
    let mut i: usize = 0;
    while i < v.len()
        invariant
            i <= v@.len(),
            r@.len() == i,
            forall|j: int| 0 <= j < i ==> r@[j]@ == v@[j]@,
        decreases v@.len() - i,
    {
        r.push(copy_decoded(&v[i]));
        i = i + 1;
    }
    proof {
        assert(decoded_views(r@) =~= decoded_views(v@));
    }
    r
}

/// A copy of the bytes.
pub fn copy_bytes(v: &Vec<u8>) -> (r: Vec<u8>)
    ensures
        r@ == v@,
{
    let mut r: Vec<u8> = Vec::new();
    let mut i: usize = 0;
    while i < v.len()
        invariant
            i <= v@.len(),
            r@ == v@.take(i as int),
        decreases v@.len() - i,
    {
        r.push(v[i]);
        proof {
            assert(v@.take(i + 1) =~= v@.take(i as int).push(v@[i as int]));
        }
        i = i + 1;
    }
    proof {
        assert(v@.take(i as int) =~= v@);
    }
    r
}

// ============================================================
// Instruction cache
// ============================================================

/// Cache of decoded instructions by address, with hit and miss counters.
#[derive(Clone, Debug)]
pub struct InstructionCache {
    pub cache: HashMap<u64, CachedInstruction>,
    pub hits: u64,
    pub misses: u64,
    pub max_size: usize,
}

/// Abstract instruction cache.
pub ghost struct CacheView {
    pub entries: Map<u64, CachedView>,
    pub hits: u64,
    pub misses: u64,
    pub max_size: usize,
}

impl View for InstructionCache {
    type V = CacheView;

    open spec fn view(&self) -> CacheView {
        CacheView {
            entries: self.cache@.map_values(|c: CachedInstruction| c@),
            hits: self.hits,
            misses: self.misses,
            max_size: self.max_size,
        }
    }
}

/// A lookup of `addr`: the cache with one more hit or miss, and the entry found.
pub open spec fn cache_lookup(c: CacheView, addr: u64) -> (CacheView, Option<CachedView>) {
    if c.entries.contains_key(addr) {
        (CacheView { hits: (c.hits + 1) as u64, ..c }, Some(c.entries[addr]))
    } else {
        (CacheView { misses: (c.misses + 1) as u64, ..c }, None)
    }
}

/// Entry `a` was used before entry `b`, or at the same time with an address no
/// greater.
pub open spec fn used_no_later(e: Map<u64, CachedView>, a: u64, b: u64) -> bool {
    e[a].last_used < e[b].last_used || (e[a].last_used == e[b].last_used && a <= b)
}

/// The entry to evict: the least recently used (the lowest address among equals).
pub open spec fn lru_victim(e: Map<u64, CachedView>) -> u64 {
    choose|a: u64| e.contains_key(a) && forall|b: u64| e.contains_key(b) ==> used_no_later(e, a, b)
}

/// The cache after storing `inst` at `addr`: when the cache is full, the least
/// recently used entry is evicted first.
pub open spec fn cache_store(c: CacheView, addr: u64, inst: CachedView) -> CacheView {
    let e = if c.entries.len() >= c.max_size && c.entries.len() > 0 {
        c.entries.remove(lru_victim(c.entries))
    } else {
        c.entries
    };
    CacheView { entries: e.insert(addr, inst), ..c }
}

impl InstructionCache {
    /// An empty cache of capacity `CACHE_SIZE`.
    pub fn new() -> (r: Self)
        ensures
            r@ == (CacheView { entries: Map::empty(), hits: 0, misses: 0, max_size: CACHE_SIZE }),
    {
        let r = InstructionCache { cache: HashMap::with_capacity(CACHE_SIZE), hits: 0, misses: 0, max_size: CACHE_SIZE };
        proof {
            assert(r@.entries =~= Map::<u64, CachedView>::empty());
        }
        r
    }

    /// A copy of the entry at `addr`, counting a hit; or `None`, counting a miss.
    pub fn get(&mut self, addr: u64) -> (r: Option<CachedInstruction>)
        requires
            old(self).hits < u64::MAX,
            old(self).misses < u64::MAX,
        ensures
            final(self)@ == cache_lookup(old(self)@, addr).0,
            match cache_lookup(old(self)@, addr).1 {
                Some(v) => r matches Some(inst) && inst@ == v,
                None => r is None,
            },
            final(self).cache == old(self).cache,
    {
        match self.cache.get(&addr) {
            Some(inst) => {
                let copy = copy_cached(inst);
                self.hits = self.hits + 1;
                proof {
                    assert(old(self)@.entries.contains_key(addr));
                }
                Some(copy)
            },
            None => {
                self.misses = self.misses + 1;
                proof {
                    assert(!old(self)@.entries.contains_key(addr));
                }
                None
            },
        }
    }

    /// Stores `inst` at `addr`; when the cache is full, evicts the least recently
    /// used entry first.
    pub fn insert(&mut self, addr: u64, inst: CachedInstruction)
        ensures
            final(self)@ == cache_store(old(self)@, addr, inst@),
    {
        if self.cache.len() >= self.max_size {
            let mut found = false;
            let mut best_key: u64 = 0;
            let mut best_used: u64 = 0;
            for (k, v) in it: self.cache.iter()
                invariant
                    found ==> self.cache@.contains_key(best_key) && self.cache@[best_key].last_used == best_used,
                    found ==> forall|j: int| 0 <= j < it.index() ==> (best_used < it.seq()[j].1.last_used
                        || (best_used == it.seq()[j].1.last_used && best_key <= *it.seq()[j].0)),
                    !found ==> it.index() == 0,
            {
                if !found || v.last_used < best_used || (v.last_used == best_used && *k < best_key) {
                    found = true;
                    best_key = *k;
                    best_used = v.last_used;
                }
            }
            if found {
                proof {
                    let e = old(self)@.entries;
                    assert(e.contains_key(best_key));
                    assert forall|b: u64| e.contains_key(b) implies used_no_later(e, best_key, b) by {
                        assert(self.cache@.contains_key(b));
                    }
                    lemma_lru_victim_unique(e, best_key);
                }
                self.cache.remove(&best_key);
            } else {
                proof {
                    assert(old(self)@.entries.len() == 0) by {
                        assert(old(self)@.entries.dom() =~= self.cache@.dom());
                    }
                }
            }
        }
        self.cache.insert(addr, inst);
        proof {
            assert(self@.entries =~= cache_store(old(self)@, addr, inst@).entries) by {
                assert(old(self)@.entries.dom() =~= old(self).cache@.dom());
            }
        }
    }

    /// Empties the cache and clears its counters.
    pub fn clear(&mut self)
        ensures
            final(self)@ == (CacheView { entries: Map::empty(), hits: 0, misses: 0, max_size: old(self).max_size }),
    {
        self.cache.clear();
        self.hits = 0;
        self.misses = 0;
        proof {
            assert(self@.entries =~= Map::<u64, CachedView>::empty());
        }
    }
}

/// The least recently used entry is the only one that is used no later than all.
pub proof fn lemma_lru_victim_unique(e: Map<u64, CachedView>, a: u64)
    requires
        e.contains_key(a),
        forall|b: u64| e.contains_key(b) ==> used_no_later(e, a, b),
    ensures
        lru_victim(e) == a,
{
    let v = lru_victim(e);
    assert(e.contains_key(v) && forall|b: u64| e.contains_key(b) ==> used_no_later(e, v, b));
    assert(used_no_later(e, a, v));
    assert(used_no_later(e, v, a));
}

/// A finite, non-empty cache has an entry used no later than all others.
proof fn lemma_lru_exists(e: Map<u64, CachedView>)
    requires
        e.dom().finite(),
        e.dom().len() > 0,
    ensures
        exists|a: u64| e.contains_key(a) && forall|b: u64| e.contains_key(b) ==> used_no_later(e, a, b),
    decreases e.dom().len(),
{
    let x = e.dom().choose();
    let rest = e.remove(x);
    assert(rest.dom() =~= e.dom().remove(x));
    if rest.dom().len() == 0 {
        assert forall|b: u64| e.contains_key(b) implies used_no_later(e, x, b) by {
            if b != x {
                assert(rest.dom().contains(b));
            }
        }
    } else {
        lemma_lru_exists(rest);
        let m = choose|a: u64| rest.contains_key(a) && forall|b: u64| rest.contains_key(b) ==> used_no_later(rest, a, b);
        if used_no_later(e, m, x) {
            assert forall|b: u64| e.contains_key(b) implies used_no_later(e, m, b) by {
                if b != x {
                    assert(rest.contains_key(b));
                    assert(used_no_later(rest, m, b));
                }
            }
        } else {
            assert forall|b: u64| e.contains_key(b) implies used_no_later(e, x, b) by {
                if b != x {
                    assert(rest.contains_key(b));
                    assert(used_no_later(rest, m, b));
                }
            }
        }
    }
}

/// The cache never grows past its capacity: storing into a cache holding at most
/// `max_size` entries (at least one) leaves at most `max_size` entries.
pub proof fn law_cache_within_capacity(c: CacheView, addr: u64, inst: CachedView)
    requires
        c.entries.dom().finite(),
        c.max_size >= 1,
        c.entries.len() <= c.max_size,
    ensures
        cache_store(c, addr, inst).entries.len() <= c.max_size,
        cache_store(c, addr, inst).entries.dom().finite(),
{
    let e = c.entries;
    if e.len() >= c.max_size && e.len() > 0 {
        lemma_lru_exists(e);
        let a = choose|a: u64| e.contains_key(a) && forall|b: u64| e.contains_key(b) ==> used_no_later(e, a, b);
        lemma_lru_victim_unique(e, a);
        assert(e.remove(a).dom() =~= e.dom().remove(a));
    }
}

/// A stored instruction is found again: looking up `addr` right after storing
/// `inst` there is a hit that gives `inst`.
pub proof fn law_cache_lookup_after_store(c: CacheView, addr: u64, inst: CachedView)
    ensures
        cache_lookup(cache_store(c, addr, inst), addr).1 == Some(inst),
{
}

/// Storing into a full cache evicts one entry used no later than every other
/// (the lowest address among those used last at the same time), then adds the
/// new one; a cache with room only adds it. Every other entry stays.
pub proof fn law_cache_evicts_least_recent(c: CacheView, addr: u64, inst: CachedView)
    requires
        c.entries.dom().finite(),
    ensures
        c.entries.len() < c.max_size || c.entries.len() == 0 ==> cache_store(c, addr, inst).entries == c.entries.insert(
            addr,
            inst,
        ),
        c.entries.len() >= c.max_size && c.entries.len() > 0 ==> exists|v: u64| {
            &&& #[trigger] c.entries.contains_key(v)
            &&& forall|b: u64| #[trigger] c.entries.contains_key(b) ==> (c.entries[v].last_used < c.entries[b].last_used
                || (c.entries[v].last_used == c.entries[b].last_used && v <= b))
            &&& cache_store(c, addr, inst).entries == c.entries.remove(v).insert(addr, inst)
        },
        cache_store(c, addr, inst).hits == c.hits,
        cache_store(c, addr, inst).misses == c.misses,
        cache_store(c, addr, inst).max_size == c.max_size,
{
    let e = c.entries;
    if e.len() >= c.max_size && e.len() > 0 {
        lemma_lru_exists(e);
        let a = choose|a: u64| e.contains_key(a) && forall|b: u64| e.contains_key(b) ==> used_no_later(e, a, b);
        lemma_lru_victim_unique(e, a);
        assert(forall|b: u64| #[trigger] e.contains_key(b) ==> (e[a].last_used < e[b].last_used || (e[a].last_used
            == e[b].last_used && a <= b)));
    }
}

/// A lookup finds exactly what the cache holds at the address and counts one
/// hit when it finds an entry, one miss otherwise, changing no entry.
pub proof fn law_cache_lookup_counts(c: CacheView, addr: u64)
    requires
        c.hits < u64::MAX,
        c.misses < u64::MAX,
    ensures
        ({
            let (c2, found) = cache_lookup(c, addr);
            &&& c2.entries == c.entries
            &&& c2.max_size == c.max_size
            &&& c.entries.contains_key(addr) ==> found == Some(c.entries[addr]) && c2.hits == c.hits + 1 && c2.misses == c.misses
            &&& !c.entries.contains_key(addr) ==> found is None && c2.misses == c.misses + 1 && c2.hits == c.hits
        }),
{
}

// ============================================================
// Branch predictor
// ============================================================

/// A table of 2-bit saturating counters, indexed by the low bits of the address.
#[derive(Clone, Debug)]
pub struct BranchPredictor {
    pub history: [u8; 1024],
    pub predictions: u64,
    pub correct: u64,
    pub incorrect: u64,
}

/// Abstract branch predictor.
pub ghost struct PredictorView {
    pub history: Seq<u8>,
    pub predictions: u64,
    pub correct: u64,
    pub incorrect: u64,
}

impl View for BranchPredictor {
    type V = PredictorView;

    open spec fn view(&self) -> PredictorView {
        PredictorView {
            history: self.history@,
            predictions: self.predictions,
            correct: self.correct,
            incorrect: self.incorrect,
        }
    }
}

/// The counter slot of `addr`.
pub open spec fn slot_of(addr: u64) -> int {
    (addr % 1024) as int
}

/// The counter after an outcome: one step towards 3 when taken, towards 0 when not.
pub open spec fn counter_after(h: u8, taken: bool) -> u8 {
    if taken {
        if h < 3 { (h + 1) as u8 } else { h }
    } else {
        if h > 0 { (h - 1) as u8 } else { h }
    }
}

/// The predictor after the branch at `addr` went the way of `taken`: the counter
/// moves, and the prediction that the moved counter gives is scored.
pub open spec fn predictor_update(p: PredictorView, addr: u64, taken: bool) -> PredictorView {
    let i = slot_of(addr);
    let h = counter_after(p.history[i], taken);
    let predicted = h >= 2;
    PredictorView {
        history: p.history.update(i, h),
        correct: if predicted == taken { (p.correct + 1) as u64 } else { p.correct },
        incorrect: if predicted == taken { p.incorrect } else { (p.incorrect + 1) as u64 },
        ..p
    }
}

fn slot_index(addr: u64) -> (i: usize)
    ensures
        i == slot_of(addr),
        i < 1024,
{
    let masked = addr & 1023;
    assert(masked == addr % 1024) by (bit_vector)
        requires
            masked == addr & 1023,
    ;
    masked as usize
}

impl BranchPredictor {
    /// A predictor with every counter at 0 (strongly not taken).
    pub fn new() -> (r: Self)
        ensures
            r@ == (PredictorView { history: Seq::new(1024, |i: int| 0u8), predictions: 0, correct: 0, incorrect: 0 }),
    {
        let r = BranchPredictor { history: [0u8; 1024], predictions: 0, correct: 0, incorrect: 0 };
        proof {
            assert(r@.history =~= Seq::new(1024, |i: int| 0u8));
        }
        r
    }

    /// Predicts the branch at `addr`: taken when its counter is 2 or 3.
    pub fn predict(&mut self, addr: u64) -> (taken: bool)
        requires
            old(self).predictions < u64::MAX,
        ensures
            taken == (old(self)@.history[slot_of(addr)] >= 2),
            final(self)@ == (PredictorView { predictions: (old(self).predictions + 1) as u64, ..old(self)@ }),
    {
        self.predictions = self.predictions + 1;
        let idx = slot_index(addr);
        self.history[idx] >= 2
    }

    /// Records the outcome of the branch at `addr`.
    pub fn update(&mut self, addr: u64, taken: bool)
        requires
            old(self).correct < u64::MAX,
            old(self).incorrect < u64::MAX,
        ensures
            final(self)@ == predictor_update(old(self)@, addr, taken),
    {
        let idx = slot_index(addr);
        if taken {
            if self.history[idx] < 3 {
                self.history[idx] = self.history[idx] + 1;
            }
        } else {
            if self.history[idx] > 0 {
                self.history[idx] = self.history[idx] - 1;
            }
        }
        let predicted = self.history[idx] >= 2;
        if predicted == taken {
            self.correct = self.correct + 1;
        } else {
            self.incorrect = self.incorrect + 1;
        }
        proof {
            assert(self@.history =~= predictor_update(old(self)@, addr, taken).history);
        }
    }
}

/// Every counter of the predictor is a 2-bit value.
pub open spec fn counters_2bit(p: PredictorView) -> bool {
    forall|i: int| 0 <= i < p.history.len() ==> #[trigger] p.history[i] <= 3
}

/// The counters stay 2-bit values: an update keeps every counter within 0..=3.
pub proof fn law_predictor_counters_stay_2bit(p: PredictorView, addr: u64, taken: bool)
    requires
        counters_2bit(p),
        p.history.len() == 1024,
    ensures
        counters_2bit(predictor_update(p, addr, taken)),
{
    let q = predictor_update(p, addr, taken);
    assert forall|i: int| 0 <= i < q.history.len() implies #[trigger] q.history[i] <= 3 by {
        if i != slot_of(addr) {
            assert(q.history[i] == p.history[i]);
        }
    }
}

/// An update scores exactly one prediction, correct or not, moves only the
/// counter of the branch's slot one step (towards 3 when taken, towards 0 when
/// not), and leaves the number of predictions as it was. Stated where neither
/// score is at its limit, as `update` requires.
pub proof fn law_predictor_update_scores_once(p: PredictorView, addr: u64, taken: bool)
    requires
        p.history.len() == 1024,
        p.correct < u64::MAX,
        p.incorrect < u64::MAX,
    ensures
        ({
            let q = predictor_update(p, addr, taken);
            let k = slot_of(addr);
            &&& q.correct + q.incorrect == p.correct + p.incorrect + 1
            &&& q.predictions == p.predictions
            &&& q.history.len() == 1024
            &&& q.history[k] == counter_after(p.history[k], taken)
            &&& forall|j: int| 0 <= j < 1024 && j != k ==> #[trigger] q.history[j] == p.history[j]
        }),
{
    let k = slot_of(addr);
    assert(0 <= k < 1024);
    let q = predictor_update(p, addr, taken);
    assert forall|j: int| 0 <= j < 1024 && j != k implies #[trigger] q.history[j] == p.history[j] by {}
}

/// Training works: once a branch has been taken twice in a row, it is predicted
/// taken; once not taken twice in a row, predicted not taken.
pub proof fn law_predictor_learns(p: PredictorView, addr: u64, taken: bool)
    requires
        counters_2bit(p),
        p.history.len() == 1024,
    ensures
        (predictor_update(predictor_update(p, addr, taken), addr, taken).history[slot_of(addr)] >= 2) == taken,
{
}


// ============================================================
// Pipeline
// ============================================================

/// Stage of the pipeline.
#[derive(Clone, Copy, Debug, PartialEq, Eq, Structural)]
pub enum PipelineStageType {
    Fetch,
    Decode,
    Execute,
    Memory,
    Writeback,
}

/// An instruction in flight.
#[derive(Clone, Debug)]
pub struct PipelineInstruction {
    pub addr: u64,
    pub opcode: u8,
    pub decoded: DecodedInstruction,
    pub stage: PipelineStageType,
}

/// One stage of the pipeline.
#[derive(Clone, Debug)]
pub struct PipelineStage {
    pub instruction: Option<PipelineInstruction>,
    pub cycles: u8,
    pub busy: bool,
}

/// Abstract instruction in flight.
pub ghost struct InFlightView {
    pub addr: u64,
    pub opcode: u8,
    pub decoded: DecodedView,
    pub stage: PipelineStageType,
}

/// Abstract pipeline stage.
pub ghost struct StageView {
    pub instruction: Option<InFlightView>,
    pub cycles: u8,
    pub busy: bool,
}

/// The abstract view of an instruction in flight.
pub open spec fn in_flight_view(i: PipelineInstruction) -> InFlightView {
    InFlightView { addr: i.addr, opcode: i.opcode, decoded: i.decoded@, stage: i.stage }
}

/// The abstract view of a stage.
pub open spec fn stage_view(s: PipelineStage) -> StageView {
    StageView {
        instruction: match s.instruction {
            Some(i) => Some(in_flight_view(i)),
            None => None,
        },
        cycles: s.cycles,
        busy: s.busy,
    }
}

/// A five-stage pipeline that stalls for a cycle when an instruction cannot be issued.
pub struct Pipeline {
    pub stages: [PipelineStage; 5],
    pub stalled: bool,
    pub stall_cycles: u8,
}

/// Abstract pipeline.
pub ghost struct PipelineView {
    pub stages: Seq<StageView>,
    pub stalled: bool,
    pub stall_cycles: u8,
}

impl View for Pipeline {
    type V = PipelineView;

    open spec fn view(&self) -> PipelineView {
        PipelineView {
            stages: self.stages@.map_values(|s: PipelineStage| stage_view(s)),
            stalled: self.stalled,
            stall_cycles: self.stall_cycles,
        }
    }
}

/// An empty stage.
pub open spec fn idle_stage() -> StageView {
    StageView { instruction: None, cycles: 0, busy: false }
}

/// A stage after a clock: the last stage retires its instruction; a busy stage
/// holding an instruction keeps it, with its cycle count at 1; a busy stage
/// holding none becomes idle.
pub open spec fn stage_after_clock(s: StageView, last: bool) -> StageView {
    if !s.busy {
        s
    } else if last {
        StageView { instruction: None, busy: false, ..s }
    } else {
        match s.instruction {
            Some(i) => StageView { instruction: Some(i), busy: true, cycles: 1 },
            None => StageView { instruction: None, busy: false, ..s },
        }
    }
}

/// The pipeline after a clock, and whether it advanced (a stalled pipeline only
/// counts down its stall).
pub open spec fn pipeline_clock(p: PipelineView) -> (PipelineView, bool) {
    if p.stalled {
        let left = (p.stall_cycles - 1) as u8;
        (PipelineView { stall_cycles: left, stalled: left != 0, ..p }, false)
    } else {
        (
            PipelineView {
                stages: Seq::new(5, |i: int| stage_after_clock(p.stages[i], i == 4)),
                ..p
            },
            true,
        )
    }
}

/// A stalled pipeline has a stall to count down.
pub open spec fn pipeline_wf(p: PipelineView) -> bool {
    &&& p.stages.len() == 5
    &&& p.stalled ==> p.stall_cycles > 0
}

impl Pipeline {
    /// A pipeline with five idle stages, not stalled.
    pub fn new() -> (r: Self)
        ensures
            r@ == (PipelineView { stages: Seq::new(5, |i: int| idle_stage()), stalled: false, stall_cycles: 0 }),
    {
        let r = Pipeline {
            stages: [
                PipelineStage { instruction: None, cycles: 0, busy: false },
                PipelineStage { instruction: None, cycles: 0, busy: false },
                PipelineStage { instruction: None, cycles: 0, busy: false },
                PipelineStage { instruction: None, cycles: 0, busy: false },
                PipelineStage { instruction: None, cycles: 0, busy: false },
            ],
            stalled: false,
            stall_cycles: 0,
        };
        proof {
            assert(r@.stages =~= Seq::new(5, |i: int| idle_stage()));
        }
        r
    }

    /// One clock of the pipeline.
    pub fn step(&mut self) -> (advanced: bool)
        requires
            pipeline_wf(old(self)@),
        ensures
            (final(self)@, advanced) == pipeline_clock(old(self)@),
            pipeline_wf(final(self)@),
    {
        if self.stalled {
            self.stall_cycles = self.stall_cycles - 1;
            if self.stall_cycles == 0 {
                self.stalled = false;
            }
            return false;
        }
        let mut prev_inst: Option<PipelineInstruction> = None;
        let mut i: usize = 0;
        while i < PIPELINE_DEPTH
            invariant
                i <= 5,
                prev_inst is None,
                !self.stalled,
                self.stall_cycles == old(self).stall_cycles,
                old(self)@.stages.len() == 5,
                forall|j: int| 0 <= j < i ==> stage_view(#[trigger] self.stages@[j]) == stage_after_clock(old(self)@.stages[j], j == 4),
                forall|j: int| i <= j < 5 ==> stage_view(#[trigger] self.stages@[j]) == old(self)@.stages[j],
            decreases 5 - i,
        {
            if self.stages[i].busy {
                if i == PIPELINE_DEPTH - 1 {
                    self.stages[i].busy = false;
                    self.stages[i].instruction = None;
                } else {
                    let inst = self.stages[i].instruction.take();
                    self.stages[i].busy = false;
                    prev_inst = inst;
                }
            }
            if let Some(inst) = prev_inst.take() {
                self.stages[i].instruction = Some(inst);
                self.stages[i].busy = true;
                self.stages[i].cycles = 1;
            }
            i = i + 1;
        }
        proof {
            assert(self@.stages =~= pipeline_clock(old(self)@).0.stages);
        }
        true
    }

    /// Issues `inst` into the first stage; when that stage is busy, the
    /// instruction is dropped and the pipeline stalls for one clock.
    pub fn issue(&mut self, inst: PipelineInstruction) -> (issued: bool)
        requires
            pipeline_wf(old(self)@),
        ensures
            pipeline_wf(final(self)@),
            issued == !old(self)@.stages[0].busy,
            issued ==> final(self)@ == (PipelineView {
                stages: old(self)@.stages.update(
                    0,
                    StageView { instruction: Some(in_flight_view(inst)), cycles: 1, busy: true },
                ),
                ..old(self)@
            }),
            !issued ==> final(self)@ == (PipelineView { stalled: true, stall_cycles: 1, ..old(self)@ }),
    {
        if !self.stages[0].busy {
            self.stages[0].instruction = Some(inst);
            self.stages[0].busy = true;
            self.stages[0].cycles = 1;
            proof {
                assert(self@.stages =~= old(self)@.stages.update(
                    0,
                    StageView { instruction: Some(in_flight_view(inst)), cycles: 1, busy: true },
                ));
            }
            true
        } else {
            self.stalled = true;
            self.stall_cycles = 1;
            false
        }
    }
}

/// The pipeline never loses count of a stall: issuing and clocking keep it well
/// formed, and a stall from a refused issue is over after one clock.
pub proof fn law_stall_lasts_one_clock(p: PipelineView)
    requires
        pipeline_wf(p),
    ensures
        ({
            let stalled = PipelineView { stalled: true, stall_cycles: 1, ..p };
            let (q, advanced) = pipeline_clock(stalled);
            &&& !advanced
            &&& !q.stalled
            &&& q.stages == p.stages
        }),
{
}

/// A clock of a stalled pipeline moves nothing and counts the stall down by
/// one, ending it at zero. A clock of a running pipeline advances: the last
/// stage retires its instruction and goes idle, every other busy stage keeps
/// its instruction (for one cycle) or goes idle when it holds none, and idle
/// stages stay.
pub proof fn law_pipeline_clock(p: PipelineView)
    requires
        pipeline_wf(p),
    ensures
        ({
            let (q, advanced) = pipeline_clock(p);
            &&& pipeline_wf(q)
            &&& advanced == !p.stalled
            &&& p.stalled ==> q.stages == p.stages && q.stall_cycles == p.stall_cycles - 1 && q.stalled == (p.stall_cycles > 1)
            &&& !p.stalled ==> {
                &&& q.stall_cycles == p.stall_cycles
                &&& !q.stalled
                &&& forall|i: int| 0 <= i < 5 && !p.stages[i].busy ==> #[trigger] q.stages[i] == p.stages[i]
                &&& p.stages[4].busy ==> q.stages[4].instruction is None && !q.stages[4].busy
                &&& forall|i: int| 0 <= i < 4 && p.stages[i].busy ==> {
                    &&& (#[trigger] q.stages[i]).instruction == p.stages[i].instruction
                    &&& q.stages[i].busy == (p.stages[i].instruction is Some)
                    &&& p.stages[i].instruction is Some ==> q.stages[i].cycles == 1
                }
            }
        }),
{
}

// ============================================================
// Thread pool
// ============================================================

/// Asks rayon how many worker threads its current pool has
/// (`rayon::current_num_threads`). The contract claims only that a pool has at
/// least one thread (rayon sizes a pool from a positive setting, or from the
/// machine's parallelism with 1 as fallback); which number it is depends on the
/// machine and its configuration and is not stated.
#[verifier::external_body]
fn rayon_thread_count() -> (n: usize)
    ensures
        n >= 1,
{
    rayon::current_num_threads()
}

/// The worker pool that runs cores in parallel.
pub struct ThreadPool {
    pub num_threads: usize,
    pub running: bool,
}

impl ThreadPool {
    /// A pool sized after rayon's current pool (at least one thread), not running.
    pub fn new() -> (r: Self)
        ensures
            r.num_threads >= 1,
            !r.running,
    {
        let num_threads = rayon_thread_count();
        ThreadPool { num_threads, running: false }
    }
}

// ============================================================
// Block compiler
// ============================================================

/// A compiled block of instructions.
#[derive(Clone, Debug)]
pub struct JitBlock {
    pub start_addr: u64,
    pub end_addr: u64,
    pub instructions: Vec<DecodedInstruction>,
    pub native_code: Vec<u8>,
    pub execution_count: u64,
}

/// Abstract compiled block.
pub ghost struct BlockView {
    pub start_addr: u64,
    pub end_addr: u64,
    pub instructions: Seq<DecodedView>,
    pub native_code: Seq<u8>,
    pub execution_count: u64,
}

impl View for JitBlock {
    type V = BlockView;

    open spec fn view(&self) -> BlockView {
        BlockView {
            start_addr: self.start_addr,
            end_addr: self.end_addr,
            instructions: decoded_views(self.instructions@),
            native_code: self.native_code@,
            execution_count: self.execution_count,
        }
    }
}

/// A copy of `b`.
pub fn copy_block(b: &JitBlock) -> (r: JitBlock)
    ensures
        r@ == b@,
{
    JitBlock {
        start_addr: b.start_addr,
        end_addr: b.end_addr,
        instructions: copy_decoded_all(&b.instructions),
        native_code: copy_bytes(&b.native_code),
        execution_count: b.execution_count,
    }
}

/// The block compiler: compiled blocks by start address, with hit and miss counters.
pub struct JitCompiler {
    pub enabled: bool,
    pub compiled: HashMap<u64, JitBlock>,
    pub hit_count: u64,
    pub miss_count: u64,
}

/// Abstract block compiler.
pub ghost struct JitView {
    pub enabled: bool,
    pub compiled: Map<u64, BlockView>,
    pub hit_count: u64,
    pub miss_count: u64,
}

impl View for JitCompiler {
    type V = JitView;

    open spec fn view(&self) -> JitView {
        JitView {
            enabled: self.enabled,
            compiled: self.compiled@.map_values(|b: JitBlock| b@),
            hit_count: self.hit_count,
            miss_count: self.miss_count,
        }
    }
}

/// The code of one operand: its register number (low byte), then its immediate
/// and its address as 8 little-endian bytes each, for those it has.
pub open spec fn operand_code(o: Operand) -> Seq<u8> {
    (match o.reg {
        Some(r) => seq![(r % 256) as u8],
        None => Seq::empty(),
    }) + (match o.imm {
        Some(v) => le_bytes(v as nat, 8),
        None => Seq::empty(),
    }) + (match o.addr {
        Some(a) => le_bytes(a as nat, 8),
        None => Seq::empty(),
    })
}

/// The code of the operands, one after the other.
pub open spec fn operands_code(ops: Seq<Operand>) -> Seq<u8>
    decreases ops.len(),
{
    if ops.len() == 0 {
        Seq::empty()
    } else {
        operands_code(ops.drop_last()) + operand_code(ops.last())
    }
}

/// The code of one instruction: its operation number, cycles and flags, then its operands.
pub open spec fn instruction_code(d: DecodedView) -> Seq<u8> {
    seq![op_number(d.op_type), d.cycles, d.flags] + operands_code(d.operands)
}

/// The code of the instructions, one after the other.
pub open spec fn native_code(insts: Seq<DecodedView>) -> Seq<u8>
    decreases insts.len(),
{
    if insts.len() == 0 {
        Seq::empty()
    } else {
        native_code(insts.drop_last()) + instruction_code(insts.last())
    }
}

/// The block compiled from `insts` at `addr` (ending `insts.len()` bytes further,
/// modulo 2^64).
pub open spec fn compiled_block(addr: u64, insts: Seq<DecodedView>) -> BlockView {
    BlockView {
        start_addr: addr,
        end_addr: ((addr + insts.len()) % 0x1_0000_0000_0000_0000) as u64,
        instructions: insts,
        native_code: native_code(insts),
        execution_count: 0,
    }
}

/// A lookup of `addr`: the compiler with one more hit or miss, and the block found.
pub open spec fn jit_lookup(j: JitView, addr: u64) -> (JitView, Option<BlockView>) {
    if j.compiled.contains_key(addr) {
        (JitView { hit_count: (j.hit_count + 1) as u64, ..j }, Some(j.compiled[addr]))
    } else {
        (JitView { miss_count: (j.miss_count + 1) as u64, ..j }, None)
    }
}

/// A block lookup finds exactly the block compiled at the address and counts
/// one hit when it finds one, one miss otherwise, changing no block.
pub proof fn law_jit_lookup_counts(j: JitView, addr: u64)
    requires
        j.hit_count < u64::MAX,
        j.miss_count < u64::MAX,
    ensures
        ({
            let (j2, found) = jit_lookup(j, addr);
            &&& j2.compiled == j.compiled
            &&& j2.enabled == j.enabled
            &&& j.compiled.contains_key(addr) ==> found == Some(j.compiled[addr]) && j2.hit_count == j.hit_count + 1
                && j2.miss_count == j.miss_count
            &&& !j.compiled.contains_key(addr) ==> found is None && j2.miss_count == j.miss_count + 1 && j2.hit_count
                == j.hit_count
        }),
{
}

/// A block compiled at `addr` starts there, holds the instructions in order,
/// ends one byte per instruction further (modulo 2^64) and has not run yet.
pub proof fn law_compiled_block_spans_instructions(addr: u64, insts: Seq<DecodedView>)
    ensures
        compiled_block(addr, insts).start_addr == addr,
        compiled_block(addr, insts).instructions == insts,
        compiled_block(addr, insts).end_addr == (addr + insts.len()) % 0x1_0000_0000_0000_0000,
        compiled_block(addr, insts).execution_count == 0,
{
}

/// Appends the 8 little-endian bytes of `v`.
fn push_le64(code: &mut Vec<u8>, v: u64)
    ensures
        final(code)@ == old(code)@ + le_bytes(v as nat, 8),
{
    let mut rest = v;
    let mut k: u64 = 0;
    while k < 8
        invariant
            k <= 8,
            old(code)@ + le_bytes(v as nat, 8) == code@ + le_bytes(rest as nat, (8 - k) as nat),
        decreases 8 - k,
    {
        proof {
            assert(le_bytes(rest as nat, (8 - k) as nat) =~= seq![(rest % 256) as u8] + le_bytes((rest / 256) as nat, (8 - k - 1) as nat));
        }
        code.push((rest % 256) as u8);
        proof {
            assert(code@ + le_bytes((rest / 256) as nat, (8 - k - 1) as nat) =~= old(code)@ + le_bytes(v as nat, 8));
        }
        rest = rest / 256;
        k = k + 1;
    }
    proof {
        assert(code@ + le_bytes(rest as nat, 0) =~= code@);
    }
}

/// Appends the code of `op`.
fn push_operand(code: &mut Vec<u8>, op: Operand)
    ensures
        final(code)@ == old(code)@ + operand_code(op),
{
    match op.reg {
        Some(reg) => {
            code.push((reg % 256) as u8);
        },
        None => {},
    }
    let ghost after_reg = code@;
    match op.imm {
        Some(imm) => {
            push_le64(code, imm);
        },
        None => {},
    }
    let ghost after_imm = code@;
    match op.addr {
        Some(a) => {
            push_le64(code, a);
        },
        None => {},
    }
    proof {
        assert(code@ =~= old(code)@ + operand_code(op));
    }
}

impl JitCompiler {
    /// An enabled compiler with no block.
    pub fn new() -> (r: Self)
        ensures
            r@ == (JitView { enabled: true, compiled: Map::empty(), hit_count: 0, miss_count: 0 }),
    {
        let r = JitCompiler { enabled: true, compiled: HashMap::new(), hit_count: 0, miss_count: 0 };
        proof {
            assert(r@.compiled =~= Map::<u64, BlockView>::empty());
        }
        r
    }

    /// Compiles `instructions` as the block at `addr`, keeps it, and returns it.
    pub fn compile(&mut self, addr: u64, instructions: Vec<DecodedInstruction>) -> (block: JitBlock)
        ensures
            block@ == compiled_block(addr, decoded_views(instructions@)),
            final(self)@ == (JitView {
                compiled: old(self)@.compiled.insert(addr, block@),
                ..old(self)@
            }),
    {
        let native_code = self.generate_native_code(&instructions);
        let block = JitBlock {
            start_addr: addr,
            end_addr: addr.wrapping_add(instructions.len() as u64),
            instructions,
            native_code,
            execution_count: 0,
        };
        self.compiled.insert(addr, copy_block(&block));
        proof {
            assert(self@.compiled =~= old(self)@.compiled.insert(addr, block@));
        }
        block
    }

    /// The block at `addr`, counting a hit; or `None`, counting a miss.
    pub fn get(&mut self, addr: u64) -> (r: Option<&JitBlock>)
        requires
            old(self).hit_count < u64::MAX,
            old(self).miss_count < u64::MAX,
        ensures
            final(self)@ == jit_lookup(old(self)@, addr).0,
            match jit_lookup(old(self)@, addr).1 {
                Some(b) => r matches Some(block) && block@ == b,
                None => r is None,
            },
    {
        if self.compiled.contains_key(&addr) {
            self.hit_count = self.hit_count + 1;
            self.compiled.get(&addr)
        } else {
            self.miss_count = self.miss_count + 1;
            None
        }
    }

    /// The code generated for `instructions`.
    pub fn generate_native_code(&self, instructions: &[DecodedInstruction]) -> (code: Vec<u8>)
        ensures
            code@ == native_code(decoded_views(instructions@)),
    {
        let mut code: Vec<u8> = Vec::new();
        let mut i: usize = 0;
        while i < instructions.len()
            invariant
                i <= instructions@.len(),
                code@ == native_code(decoded_views(instructions@.take(i as int))),
            decreases instructions@.len() - i,
        {
            let inst = &instructions[i];
            let ghost before = code@;
            code.push(op_code(inst.op_type));
            code.push(inst.cycles);
            code.push(inst.flags);
            let mut k: usize = 0;
            while k < inst.operands.len()
                invariant
                    k <= inst.operands@.len(),
                    code@ == before + seq![op_number(inst.op_type), inst.cycles, inst.flags]
                        + operands_code(inst.operands@.take(k as int)),
                decreases inst.operands@.len() - k,
            {
                let op = inst.operands[k];
                let ghost mid = code@;
                push_operand(&mut code, op);
                proof {
                    assert(code@ =~= mid + operand_code(op));
                    assert(inst.operands@.take(k + 1).drop_last() =~= inst.operands@.take(k as int));
                }
                k = k + 1;
            }
            proof {
                assert(inst.operands@.take(k as int) =~= inst.operands@);
                assert(decoded_views(instructions@.take(i + 1)).drop_last() =~= decoded_views(instructions@.take(i as int)));
                assert(code@ =~= native_code(decoded_views(instructions@.take(i as int))) + instruction_code(inst@));
            }
            i = i + 1;
        }
        proof {
            assert(instructions@.take(i as int) =~= instructions@);
        }
        code
    }
}


// ============================================================
// Cores
// ============================================================

/// State of a core.
#[derive(Clone, Copy, Debug, PartialEq, Eq, Structural)]
pub enum CoreStatus {
    Active,
    Idle,
    Halted,
    PowerSaving,
}

/// Initial stack pointer of a core.
pub const INITIAL_RSP: u64 = 0xFFFF_FFFF_FFFF_0000;

/// One core: registers, counters, and its instruction cache, branch predictor,
/// pipeline and block compiler.
pub struct CpuCoreOptimized {
    pub registers: [u64; 16],
    pub rip: u64,
    pub rsp: u64,
    pub rbp: u64,
    pub rflags: u64,
    pub core_id: usize,
    pub status: CoreStatus,
    pub frequency_mhz: u32,
    pub instructions_executed: u64,
    pub cycles: u64,
    pub cache: InstructionCache,
    pub branch_predictor: BranchPredictor,
    pub pipeline: Pipeline,
    pub jit: JitCompiler,
}

/// Abstract core.
pub ghost struct CoreView {
    pub registers: Seq<u64>,
    pub rip: u64,
    pub rsp: u64,
    pub rbp: u64,
    pub rflags: u64,
    pub core_id: usize,
    pub status: CoreStatus,
    pub frequency_mhz: u32,
    pub instructions_executed: u64,
    pub cycles: u64,
    pub cache: CacheView,
    pub predictor: PredictorView,
    pub pipeline: PipelineView,
    pub jit: JitView,
}

impl View for CpuCoreOptimized {
    type V = CoreView;

    open spec fn view(&self) -> CoreView {
        CoreView {
            registers: self.registers@,
            rip: self.rip,
            rsp: self.rsp,
            rbp: self.rbp,
            rflags: self.rflags,
            core_id: self.core_id,
            status: self.status,
            frequency_mhz: self.frequency_mhz,
            instructions_executed: self.instructions_executed,
            cycles: self.cycles,
            cache: self.cache@,
            predictor: self.branch_predictor@,
            pipeline: self.pipeline@,
            jit: self.jit@,
        }
    }
}

/// A new core with id `core_id`: registers at zero, stack pointer at
/// `INITIAL_RSP`, active at 3500 MHz, with empty cache, predictor, pipeline and
/// compiler.
pub open spec fn fresh_core(core_id: usize) -> CoreView {
    CoreView {
        registers: Seq::new(16, |i: int| 0u64),
        rip: 0,
        rsp: INITIAL_RSP,
        rbp: 0,
        rflags: 0,
        core_id,
        status: CoreStatus::Active,
        frequency_mhz: 3500,
        instructions_executed: 0,
        cycles: 0,
        cache: CacheView { entries: Map::empty(), hits: 0, misses: 0, max_size: CACHE_SIZE },
        predictor: PredictorView { history: Seq::new(1024, |i: int| 0u8), predictions: 0, correct: 0, incorrect: 0 },
        pipeline: PipelineView { stages: Seq::new(5, |i: int| idle_stage()), stalled: false, stall_cycles: 0 },
        jit: JitView { enabled: true, compiled: Map::empty(), hit_count: 0, miss_count: 0 },
    }
}

/// The core `c` put back in its initial state: registers, stack pointer, flags,
/// status and counters, with the cache and the compiled blocks emptied (the
/// predictor, the pipeline and the compiler's hit counts are kept).
pub open spec fn reset_core(c: CoreView) -> CoreView {
    CoreView {
        registers: Seq::new(16, |i: int| 0u64),
        rip: 0,
        rsp: INITIAL_RSP,
        rbp: 0,
        rflags: 0,
        status: CoreStatus::Active,
        instructions_executed: 0,
        cycles: 0,
        cache: CacheView { entries: Map::empty(), hits: 0, misses: 0, max_size: c.cache.max_size },
        jit: JitView { compiled: Map::empty(), ..c.jit },
        ..c
    }
}

/// `x` modulo 2^64.
pub open spec fn wrap(x: int) -> u64 {
    (x % 0x1_0000_0000_0000_0000) as u64
}

/// The byte `b` read as a signed 8-bit number.
pub open spec fn sext8(b: nat) -> int {
    if b < 128 { b as int } else { b - 256 }
}

/// The 32-bit value `v` read as a signed number.
pub open spec fn sext32(v: nat) -> int {
    if v < 0x8000_0000 { v as int } else { v - 0x1_0000_0000 }
}

/// Reading `n` little-endian bytes at `a`: the value or the error, and the pages after.
pub open spec fn read_at(m: MemView, a: u64, n: nat) -> (Result<nat, Seq<char>>, MemView) {
    let (bs, m1, failed) = read_bytes(m, a as int, n);
    match failed {
        None => (Ok(le_value(bs)), m1),
        Some(x) => (Err(out_of_range_text(x as u64)), m1),
    }
}

/// Writing `v` as 8 little-endian bytes at `a`: the pages after, and the outcome.
pub open spec fn write_at(m: MemView, a: u64, v: u64) -> (MemView, Result<(), Seq<char>>) {
    let (m1, failed) = write_bytes(m, a as int, le_bytes(v as nat, 8));
    match failed {
        None => (m1, Ok(())),
        Some(x) => (m1, Err(out_of_range_text(x as u64))),
    }
}

/// Text of the error of decoding an unknown opcode: `"Opcode desconhecido: 0x"`
/// and the opcode on two upper-case hexadecimal digits.
pub open spec fn undecodable_text(opcode: u8) -> Seq<char> {
    "Opcode desconhecido: 0x"@ + hex2(opcode as nat)
}

/// Writes the decoding error for `opcode`.
fn undecodable_message(opcode: u8) -> (s: String)
    ensures
        s@ == undecodable_text(opcode),
{
    let mut s = String::from_str("Opcode desconhecido: 0x");
    let op = hex2_string(opcode);
    s.append(op.as_str());
    s
}

/// A register operand.
pub open spec fn reg_operand(r: usize) -> Operand {
    Operand { reg: Some(r), imm: None, addr: None, size: 8 }
}

/// An immediate operand of `size` bytes.
pub open spec fn imm_operand(v: u64, size: u8) -> Operand {
    Operand { reg: None, imm: Some(v), addr: None, size }
}

/// A decoded instruction without flags.
pub open spec fn decoded(op: OpType, operands: Seq<Operand>, cycles: u8) -> DecodedView {
    DecodedView { op_type: op, operands, flags: 0, cycles }
}

/// Decoding `opcode` for a core whose program counter is `rip`: operands are read
/// after `rip`. Gives the instruction or the error, and the pages after the reads.
#[verifier::opaque]
pub open spec fn decode_spec(rip: u64, m: MemView, opcode: u8) -> (Result<DecodedView, Seq<char>>, MemView) {
    if opcode == 0x48 {
        let (r1, m1) = read_at(m, wrap(rip + 1), 1);
        match r1 {
            Err(e) => (Err(e), m1),
            Ok(next) => if 0xB8 <= next <= 0xBF {
                let (r2, m2) = read_at(m1, wrap(rip + 2), 8);
                match r2 {
                    Err(e) => (Err(e), m2),
                    Ok(v) => (Ok(decoded(OpType::Mov, seq![reg_operand((next - 0xB8) as usize), imm_operand(v as u64, 8)], 1)), m2),
                }
            } else {
                (Ok(decoded(OpType::Mov, Seq::empty(), 1)), m1)
            },
        }
    } else if opcode == 0x10 || opcode == 0x81 {
        (Ok(decoded(OpType::Add, seq![reg_operand(0), reg_operand(1)], 1)), m)
    } else if opcode == 0x11 || opcode == 0x83 {
        (Ok(decoded(OpType::Sub, seq![reg_operand(0), reg_operand(1)], 1)), m)
    } else if opcode == 0xF4 {
        (Ok(decoded(OpType::Halt, Seq::empty(), 1)), m)
    } else if opcode == 0xEB || opcode == 0xE9 || opcode == 0x74 || opcode == 0x75 || opcode == 0x7C || opcode == 0x7D {
        let (r1, m1) = read_at(m, wrap(rip + 1), 1);
        match r1 {
            Err(e) => (Err(e), m1),
            Ok(v) => (Ok(decoded(OpType::Jump, seq![imm_operand(v as u64, 1)], 1)), m1),
        }
    } else if opcode == 0xE8 {
        let (r1, m1) = read_at(m, wrap(rip + 1), 4);
        match r1 {
            Err(e) => (Err(e), m1),
            Ok(v) => (Ok(decoded(OpType::Call, seq![imm_operand(v as u64, 4)], 2)), m1),
        }
    } else if opcode == 0xC3 {
        (Ok(decoded(OpType::Ret, Seq::empty(), 2)), m)
    } else if opcode == 0x90 {
        (Ok(decoded(OpType::Nop, Seq::empty(), 1)), m)
    } else {
        (Err(undecodable_text(opcode)), m)
    }
}

/// Executing `opcode` on the core `c` (operands read after its program counter):
/// the core and pages after, and the outcome. Program-counter and stack-pointer
/// arithmetic is modulo 2^64.
#[verifier::opaque]
pub open spec fn exec_spec(c: CoreView, m: MemView, opcode: u8) -> (CoreView, MemView, Result<(), Seq<char>>) {
    if opcode == 0x48 {
        let (r1, m1) = read_at(m, wrap(c.rip + 1), 1);
        match r1 {
            Err(e) => (c, m1, Err(e)),
            Ok(next) => if 0xB8 <= next <= 0xBF {
                let (r2, m2) = read_at(m1, wrap(c.rip + 2), 8);
                match r2 {
                    Err(e) => (c, m2, Err(e)),
                    Ok(v) => (CoreView { registers: c.registers.update(next - 0xB8, v as u64), rip: wrap(c.rip + 10), ..c }, m2, Ok(())),
                }
            } else {
                (CoreView { rip: wrap(c.rip + 1), ..c }, m1, Ok(()))
            },
        }
    } else if opcode == 0x10 {
        (CoreView { registers: c.registers.update(2, wrap(c.registers[0] + c.registers[1])), rip: wrap(c.rip + 1), ..c }, m, Ok(()))
    } else if opcode == 0x11 {
        (CoreView { registers: c.registers.update(2, wrap(c.registers[0] - c.registers[1])), rip: wrap(c.rip + 1), ..c }, m, Ok(()))
    } else if opcode == 0x3D {
        let (r1, m1) = read_at(m, wrap(c.rip + 1), 4);
        match r1 {
            Err(e) => (c, m1, Err(e)),
            Ok(imm) => {
                let result = wrap(c.registers[0] - imm);
                (CoreView { rflags: if result == 0 { 1 } else { 0 }, rip: wrap(c.rip + 5), ..c }, m1, Ok(()))
            },
        }
    } else if opcode == 0x74 {
        let (r1, m1) = read_at(m, wrap(c.rip + 1), 1);
        match r1 {
            Err(e) => (c, m1, Err(e)),
            Ok(off) => if (c.rflags / 64) % 2 == 1 {
                let target = wrap(c.rip + sext8(off) + 2);
                (CoreView { rip: target, predictor: predictor_update(c.predictor, target, true), ..c }, m1, Ok(()))
            } else {
                let next = wrap(c.rip + 2);
                (CoreView { rip: next, predictor: predictor_update(c.predictor, next, false), ..c }, m1, Ok(()))
            },
        }
    } else if opcode == 0xEB || opcode == 0xE9 {
        let (r1, m1) = read_at(m, wrap(c.rip + 1), 1);
        match r1 {
            Err(e) => (c, m1, Err(e)),
            Ok(off) => {
                let target = wrap(c.rip + sext8(off) + 2);
                (CoreView { rip: target, predictor: predictor_update(c.predictor, target, true), ..c }, m1, Ok(()))
            },
        }
    } else if opcode == 0xE8 {
        let (r1, m1) = read_at(m, wrap(c.rip + 1), 4);
        match r1 {
            Err(e) => (c, m1, Err(e)),
            Ok(off) => {
                let sp = wrap(c.rsp - 8);
                let (m2, w) = write_at(m1, sp, wrap(c.rip + 5));
                match w {
                    Err(e) => (CoreView { rsp: sp, ..c }, m2, Err(e)),
                    Ok(_) => (CoreView { rsp: sp, rip: wrap(c.rip + sext32(off) + 5), ..c }, m2, Ok(())),
                }
            },
        }
    } else if opcode == 0xC3 {
        let (r1, m1) = read_at(m, c.rsp, 8);
        match r1 {
            Err(e) => (c, m1, Err(e)),
            Ok(ret) => (CoreView { rsp: wrap(c.rsp + 8), rip: ret as u64, ..c }, m1, Ok(())),
        }
    } else if opcode == 0xF4 {
        (CoreView { status: CoreStatus::Halted, rip: wrap(c.rip + 1), ..c }, m, Ok(()))
    } else {
        (CoreView { rip: wrap(c.rip + 1), ..c }, m, Ok(()))
    }
}

/// Executing an instruction touches neither the cache, the compiled blocks nor
/// the instruction and cycle counts, and scores at most one prediction.
proof fn lemma_exec_frame(c: CoreView, m: MemView, opcode: u8)
    requires
        c.predictor.correct < u64::MAX,
        c.predictor.incorrect < u64::MAX,
    ensures
        exec_spec(c, m, opcode).0.jit == c.jit,
        exec_spec(c, m, opcode).0.cache == c.cache,
        exec_spec(c, m, opcode).0.instructions_executed == c.instructions_executed,
        exec_spec(c, m, opcode).0.cycles == c.cycles,
        counters_within(c, exec_spec(c, m, opcode).0, 1),
{
    reveal(exec_spec);
}

/// Operations that end a block.
pub open spec fn ends_block(op: OpType) -> bool {
    op == OpType::Jump || op == OpType::Call || op == OpType::Ret || op == OpType::Halt
}

/// Collecting a block from `addr` with room for `left` more instructions after
/// `acc`: instructions are decoded (operands read after `rip`) until one ends
/// the block or the room is used up. A failure on the first instruction is an
/// error; a later one ends the block before the instruction that failed.
pub open spec fn collect_spec(rip: u64, m: MemView, addr: u64, left: nat, acc: Seq<DecodedView>) -> (Result<Seq<DecodedView>, Seq<char>>, MemView)
    decreases left,
{
    if left == 0 {
        (Ok(acc), m)
    } else {
        let (rb, m1) = read_at(m, addr, 1);
        match rb {
            Err(e) => if acc.len() == 0 { (Err(e), m1) } else { (Ok(acc), m1) },
            Ok(b) => {
                let (rd, m2) = decode_spec(rip, m1, b as u8);
                match rd {
                    Err(e) => if acc.len() == 0 { (Err(e), m2) } else { (Ok(acc), m2) },
                    Ok(d) => if ends_block(d.op_type) {
                        (Ok(acc.push(d)), m2)
                    } else {
                        collect_spec(rip, m2, wrap(addr + 1), (left - 1) as nat, acc.push(d))
                    },
                }
            },
        }
    }
}

/// One more executed instruction and cycle.
pub open spec fn retired(c: CoreView) -> CoreView {
    CoreView { instructions_executed: (c.instructions_executed + 1) as u64, cycles: (c.cycles + 1) as u64, ..c }
}

/// Fetching and executing instruction `i` of the block `b`: it is taken from
/// the cache at `start + i`, or read there from memory on a miss.
pub open spec fn block_inst_spec(c: CoreView, m: MemView, b: BlockView, i: nat) -> (CoreView, MemView, Result<(), Seq<char>>) {
    let addr = wrap(b.start_addr + i);
    let (cache1, found) = cache_lookup(c.cache, addr);
    let c1 = CoreView { cache: cache1, ..c };
    match found {
        Some(ci) => exec_spec(c1, m, ci.opcode),
        None => {
            let (rb, m1) = read_at(m, addr, 1);
            match rb {
                Err(e) => (c1, m1, Err(e)),
                Ok(op) => exec_spec(c1, m1, op as u8),
            }
        },
    }
}

/// Running the block `b` from its instruction `i`; each executed instruction
/// counts one instruction and one cycle, and at the end the program counter
/// moves to the end of the block.
pub open spec fn block_spec(c: CoreView, m: MemView, b: BlockView, i: nat) -> (CoreView, MemView, Result<(), Seq<char>>)
    decreases b.instructions.len() - i,
{
    if i >= b.instructions.len() {
        (CoreView { rip: b.end_addr, ..c }, m, Ok(()))
    } else {
        let (c2, m2, r) = block_inst_spec(c, m, b, i);
        if r is Err {
            (c2, m2, r)
        } else {
            block_spec(retired(c2), m2, b, i + 1)
        }
    }
}

/// Fetching the instruction at the program counter of `c`, whose cycle count
/// is the time of use: from the cache, or read, decoded and cached on a miss.
pub open spec fn fetch_spec(c: CoreView, m: MemView) -> (CoreView, MemView, Result<u8, Seq<char>>) {
    let (cache1, found) = cache_lookup(c.cache, c.rip);
    let c2 = CoreView { cache: cache1, ..c };
    match found {
        Some(ci) => (c2, m, Ok(ci.opcode)),
        None => {
            let (rb, m1) = read_at(m, c2.rip, 1);
            match rb {
                Err(e) => (c2, m1, Err(e)),
                Ok(op) => {
                    let (rd, m2) = decode_spec(c2.rip, m1, op as u8);
                    match rd {
                        Err(e) => (c2, m2, Err(e)),
                        Ok(d) => (
                            CoreView {
                                cache: cache_store(
                                    c2.cache,
                                    c2.rip,
                                    CachedView { opcode: op as u8, size: 1, decoded: d, last_used: c2.cycles },
                                ),
                                ..c2
                            },
                            m2,
                            Ok(op as u8),
                        ),
                    }
                },
            }
        },
    }
}

/// Running the compiled block at the program counter, compiling it first if it
/// is new.
pub open spec fn run_block_spec(c: CoreView, m: MemView) -> (CoreView, MemView, Result<(), Seq<char>>) {
    let (jit1, blk) = jit_lookup(c.jit, c.rip);
    let c4 = CoreView { jit: jit1, ..c };
    match blk {
        Some(b) => block_spec(c4, m, b, 0),
        None => {
            let (rc, m4) = collect_spec(c4.rip, m, c4.rip, MAX_BLOCK_LEN as nat, Seq::empty());
            match rc {
                Err(e) => (c4, m4, Err(e)),
                Ok(insts) => {
                    let b = compiled_block(c4.rip, insts);
                    let c5 = CoreView { jit: JitView { compiled: c4.jit.compiled.insert(c4.rip, b), ..c4.jit }, ..c4 };
                    block_spec(c5, m4, b, 0)
                },
            }
        },
    }
}

/// One step of a core: unless halted, a cycle passes and the instruction at the
/// program counter is fetched; then the compiled block at the program counter is
/// run. Without the block compiler the single fetched instruction is executed
/// instead.
pub open spec fn core_step(c: CoreView, m: MemView) -> (CoreView, MemView, Result<(), Seq<char>>) {
    if c.status == CoreStatus::Halted {
        (c, m, Ok(()))
    } else {
        let (c3, m3, fetched) = fetch_spec(CoreView { cycles: (c.cycles + 1) as u64, ..c }, m);
        match fetched {
            Err(e) => (c3, m3, Err(e)),
            Ok(opcode) => if c3.jit.enabled {
                run_block_spec(c3, m3)
            } else {
                let (c4, m4, r) = exec_spec(c3, m3, opcode);
                if r is Err {
                    (c4, m4, r)
                } else {
                    (CoreView { instructions_executed: (c4.instructions_executed + 1) as u64, ..c4 }, m4, Ok(()))
                }
            },
        }
    }
}

/// A halted core does not step: its state and the memory stay as they are.
pub proof fn law_halted_core_is_unchanged(c: CoreView, m: MemView)
    requires
        c.status == CoreStatus::Halted,
    ensures
        core_step(c, m) == (c, m, Ok::<(), Seq<char>>(())),
{
}

/// A value written as 8 bytes at `a` reads back from `a`, which lies at least 8
/// bytes below the end of the memory.
proof fn lemma_write_read_back(m: MemView, a: u64, v: u64)
    requires
        pages_ok(m),
        write_at(m, a, v).1 is Ok,
    ensures
        a + 8 <= m.size,
        read_at(write_at(m, a, v).0, a, 8).0 == Ok::<nat, Seq<char>>(v as nat),
{
    let bytes = le_bytes(v as nat, 8);
    assert(pow256(8) == 0x1_0000_0000_0000_0000) by {
        reveal_with_fuel(pow256, 9);
    }
    lemma_le_roundtrip(v as nat, 8);
    lemma_write_bytes_content(m, a as int, bytes);
    let m2 = write_bytes(m, a as int, bytes).0;
    lemma_read_bytes_content(m2, a as int, 8);
    assert(read_bytes(m2, a as int, 8).0 =~= bytes);
}

/// What a CALL that succeeded did: its operand was read, the return address
/// was written 8 bytes below the old stack pointer, which now points there.
proof fn lemma_exec_call(c: CoreView, m: MemView)
    requires
        exec_spec(c, m, 0xE8).2 is Ok,
    ensures
        read_at(m, wrap(c.rip + 1), 4).0 is Ok,
        write_at(read_at(m, wrap(c.rip + 1), 4).1, wrap(c.rsp - 8), wrap(c.rip + 5)).1 is Ok,
        exec_spec(c, m, 0xE8).0.rsp == wrap(c.rsp - 8),
        exec_spec(c, m, 0xE8).1 == write_at(read_at(m, wrap(c.rip + 1), 4).1, wrap(c.rsp - 8), wrap(c.rip + 5)).0,
{
    reveal(exec_spec);
}

/// A RET whose 8-byte read at the stack pointer succeeds returns to the value
/// read and pops it.
proof fn lemma_exec_ret(c: CoreView, m: MemView)
    requires
        read_at(m, c.rsp, 8).0 is Ok,
    ensures
        exec_spec(c, m, 0xC3).2 is Ok,
        exec_spec(c, m, 0xC3).0.rip == (read_at(m, c.rsp, 8).0->Ok_0) as u64,
        exec_spec(c, m, 0xC3).0.rsp == wrap(c.rsp + 8),
{
    reveal(exec_spec);
}

/// RET undoes CALL: after a CALL that succeeded, a RET returns to the byte
/// after the CALL (its address plus 5) and puts the stack pointer back.
pub proof fn law_ret_undoes_call(c: CoreView, m: MemView)
    requires
        pages_ok(m),
        exec_spec(c, m, 0xE8).2 is Ok,
    ensures
        ({
            let (c1, m1, _r1) = exec_spec(c, m, 0xE8);
            let (c2, _m2, r2) = exec_spec(c1, m1, 0xC3);
            &&& r2 is Ok
            &&& c2.rip == wrap(c.rip + 5)
            &&& c2.rsp == c.rsp
        }),
{
    let a = wrap(c.rip + 1);
    let m_read = read_at(m, a, 4).1;
    let sp = wrap(c.rsp - 8);
    let ret = wrap(c.rip + 5);
    lemma_exec_call(c, m);
    lemma_read_bytes_keeps(m, a as int, 4);
    lemma_write_read_back(m_read, sp, ret);
    let c1 = exec_spec(c, m, 0xE8).0;
    let m1 = exec_spec(c, m, 0xE8).1;
    assert(c1.rsp == sp);
    assert(read_at(m1, c1.rsp, 8).0 == Ok::<nat, Seq<char>>(ret as nat));
    lemma_exec_ret(c1, m1);
    assert(sp + 8 <= u64::MAX);
    assert(c.rsp >= 8) by {
        if c.rsp < 8 {
            assert(sp == c.rsp - 8 + 0x1_0000_0000_0000_0000);
        }
    }
    assert(wrap(sp + 8) == c.rsp);
}

/// The number held little-endian in the `n` bytes of memory from `a`.
pub open spec fn le_at(m: MemView, a: int, n: nat) -> nat
    decreases n,
{
    if n == 0 {
        0
    } else {
        (byte_at(m, a as u64) + 256 * le_at(m, a + 1, (n - 1) as nat)) as nat
    }
}

/// Bytes that are those of memory from `a` read as the number held there.
proof fn lemma_le_value_at(bs: Seq<u8>, m: MemView, a: int)
    requires
        forall|i: int| 0 <= i < bs.len() ==> bs[i] == byte_at(m, (a + i) as u64),
    ensures
        le_value(bs) == le_at(m, a, bs.len()),
    decreases bs.len(),
{
    if bs.len() > 0 {
        assert forall|i: int| 0 <= i < bs.drop_first().len() implies bs.drop_first()[i] == byte_at(m, (a + 1 + i) as u64) by {
            assert(bs[i + 1] == byte_at(m, (a + (i + 1)) as u64));
        }
        lemma_le_value_at(bs.drop_first(), m, a + 1);
        assert(bs[0] == byte_at(m, (a + 0) as u64));
    }
}

/// A read of `n` bytes inside the memory gives the number held there and
/// changes no byte.
pub proof fn lemma_read_at_value(m: MemView, a: u64, n: nat)
    requires
        pages_ok(m),
        a + n <= m.size,
    ensures
        read_at(m, a, n).0 == Ok::<nat, Seq<char>>(le_at(m, a as int, n)),
        read_at(m, a, n).1.size == m.size,
        pages_ok(read_at(m, a, n).1),
        forall|x: u64| byte_at(#[trigger] read_at(m, a, n).1, x) == byte_at(m, x),
{
    lemma_read_bytes_content(m, a as int, n);
    lemma_le_value_at(read_bytes(m, a as int, n).0, m, a as int);
}

/// `ADD` (`0x10`) puts R0 + R1 and `SUB` (`0x11`) puts R0 - R1 (both modulo
/// 2^64) in R2, whatever R2 held; every other register, the stack and the
/// flags stay, the memory is untouched and the program counter moves by one.
pub proof fn law_exec_add_sub(c: CoreView, m: MemView, opcode: u8)
    requires
        c.registers.len() == 16,
        opcode == 0x10 || opcode == 0x11,
    ensures
        ({
            let (c2, m2, r) = exec_spec(c, m, opcode);
            &&& r is Ok
            &&& m2 == m
            &&& c2.registers.len() == 16
            &&& opcode == 0x10 ==> c2.registers[2] == (c.registers[0] + c.registers[1]) % 0x1_0000_0000_0000_0000
            &&& opcode == 0x11 ==> c2.registers[2] == (c.registers[0] - c.registers[1]) % 0x1_0000_0000_0000_0000
            &&& forall|j: int| 0 <= j < 16 && j != 2 ==> #[trigger] c2.registers[j] == c.registers[j]
            &&& c2.rip == (c.rip + 1) % 0x1_0000_0000_0000_0000
            &&& c2.rsp == c.rsp
            &&& c2.rflags == c.rflags
            &&& c2.status == c.status
            &&& c2.instructions_executed == c.instructions_executed
        }),
{
    reveal(exec_spec);
}

/// `HLT` (`0xF4`) halts the core past the instruction, changing nothing else.
pub proof fn law_exec_halt(c: CoreView, m: MemView)
    ensures
        ({
            let (c2, m2, r) = exec_spec(c, m, 0xF4);
            &&& r is Ok
            &&& m2 == m
            &&& c2.status == CoreStatus::Halted
            &&& c2.registers == c.registers
            &&& c2.rip == (c.rip + 1) % 0x1_0000_0000_0000_0000
            &&& c2.rsp == c.rsp
            &&& c2.rflags == c.rflags
        }),
{
    reveal(exec_spec);
}

/// An opcode with no effect of its own (`NOP` among them) only moves the
/// program counter past it.
pub proof fn law_exec_other_only_advances(c: CoreView, m: MemView, opcode: u8)
    requires
        !(opcode == 0x48 || opcode == 0x10 || opcode == 0x11 || opcode == 0x3D || opcode == 0x74 || opcode == 0xEB
            || opcode == 0xE9 || opcode == 0xE8 || opcode == 0xC3 || opcode == 0xF4),
    ensures
        exec_spec(c, m, opcode) == (CoreView { rip: ((c.rip + 1) % 0x1_0000_0000_0000_0000) as u64, ..c }, m, Ok::<(), Seq<char>>(())),
{
    reveal(exec_spec);
}

/// `MOV r, imm64` (`0x48`, then `0xB8 + r`, then 8 bytes) puts the
/// little-endian number of those 8 bytes in register `r`, whatever it held;
/// the other registers, the stack and the flags stay, no byte of memory
/// changes and the program counter moves past the 10 bytes.
pub proof fn law_exec_mov(c: CoreView, m: MemView)
    requires
        c.registers.len() == 16,
        pages_ok(m),
        c.rip + 10 <= m.size,
        0xB8 <= byte_at(m, (c.rip + 1) as u64) <= 0xBF,
    ensures
        ({
            let (c2, m2, r) = exec_spec(c, m, 0x48);
            let k = byte_at(m, (c.rip + 1) as u64) - 0xB8;
            &&& r is Ok
            &&& c2.registers.len() == 16
            &&& c2.registers[k] == le_at(m, c.rip + 2, 8)
            &&& forall|j: int| 0 <= j < 16 && j != k ==> #[trigger] c2.registers[j] == c.registers[j]
            &&& c2.rip == c.rip + 10
            &&& c2.rsp == c.rsp
            &&& c2.rflags == c.rflags
            &&& forall|x: u64| #[trigger] byte_at(m2, x) == byte_at(m, x)
        }),
{
    let a1 = wrap(c.rip + 1);
    lemma_read_at_value(m, a1, 1);
    let m1 = read_at(m, a1, 1).1;
    let a2 = wrap(c.rip + 2);
    lemma_read_at_value(m1, a2, 8);
    assert(le_at(m, a1 as int, 1) == byte_at(m, a1)) by {
        reveal_with_fuel(le_at, 2);
    }
    assert(le_at(m1, a2 as int, 8) == le_at(m, a2 as int, 8)) by {
        lemma_le_at_same(m1, m, a2 as int, 8);
    }
    let v = le_at(m, c.rip + 2, 8);
    assert(v < 0x1_0000_0000_0000_0000) by {
        lemma_le_at_bound(m, c.rip + 2, 8);
        assert(pow256(8) == 0x1_0000_0000_0000_0000) by {
            reveal_with_fuel(pow256, 9);
        }
    }
    lemma_exec_mov_shape(c, m, byte_at(m, a1) as nat, v);
}

/// What a `MOV` whose two reads succeeded does, in terms of those reads.
proof fn lemma_exec_mov_shape(c: CoreView, m: MemView, b: nat, v: nat)
    requires
        read_at(m, wrap(c.rip + 1), 1).0 == Ok::<nat, Seq<char>>(b),
        0xB8 <= b <= 0xBF,
        read_at(read_at(m, wrap(c.rip + 1), 1).1, wrap(c.rip + 2), 8).0 == Ok::<nat, Seq<char>>(v),
    ensures
        exec_spec(c, m, 0x48) == (
            CoreView { registers: c.registers.update(b - 0xB8, v as u64), rip: wrap(c.rip + 10), ..c },
            read_at(read_at(m, wrap(c.rip + 1), 1).1, wrap(c.rip + 2), 8).1,
            Ok::<(), Seq<char>>(()),
        ),
{
    reveal(exec_spec);
}

/// What a `CMP` whose read succeeded does, in terms of that read.
proof fn lemma_exec_cmp_shape(c: CoreView, m: MemView, imm: nat)
    requires
        read_at(m, wrap(c.rip + 1), 4).0 == Ok::<nat, Seq<char>>(imm),
    ensures
        exec_spec(c, m, 0x3D) == (
            CoreView { rflags: if wrap(c.registers[0] - imm) == 0 { 1 } else { 0 }, rip: wrap(c.rip + 5), ..c },
            read_at(m, wrap(c.rip + 1), 4).1,
            Ok::<(), Seq<char>>(()),
        ),
{
    reveal(exec_spec);
}

/// `CMP R0, imm32` (`0x3D`, then 4 bytes) sets the flags to 1 when R0 equals
/// the little-endian number of those 4 bytes and to 0 otherwise; the registers
/// and the stack stay, no byte of memory changes and the program counter moves
/// past the 5 bytes.
pub proof fn law_exec_cmp(c: CoreView, m: MemView)
    requires
        c.registers.len() == 16,
        pages_ok(m),
        c.rip + 5 <= m.size,
    ensures
        ({
            let (c2, m2, r) = exec_spec(c, m, 0x3D);
            &&& r is Ok
            &&& c2.rflags == (if c.registers[0] == le_at(m, c.rip + 1, 4) { 1u64 } else { 0u64 })
            &&& c2.registers == c.registers
            &&& c2.rip == c.rip + 5
            &&& c2.rsp == c.rsp
            &&& forall|x: u64| #[trigger] byte_at(m2, x) == byte_at(m, x)
        }),
{
    let a1 = wrap(c.rip + 1);
    lemma_read_at_value(m, a1, 4);
    let imm = le_at(m, c.rip + 1, 4);
    assert(imm < 0x1_0000_0000) by {
        lemma_le_at_bound(m, c.rip + 1, 4);
        assert(pow256(4) == 0x1_0000_0000) by {
            reveal_with_fuel(pow256, 5);
        }
    }
    lemma_exec_cmp_shape(c, m, imm);
}

/// What a jump whose offset read succeeded does, in terms of that read.
proof fn lemma_exec_jump_shape(c: CoreView, m: MemView, opcode: u8, b: nat)
    requires
        opcode == 0x74 || opcode == 0xEB || opcode == 0xE9,
        read_at(m, wrap(c.rip + 1), 1).0 == Ok::<nat, Seq<char>>(b),
    ensures
        exec_spec(c, m, opcode).2 is Ok,
        exec_spec(c, m, opcode).1 == read_at(m, wrap(c.rip + 1), 1).1,
        exec_spec(c, m, opcode).0.registers == c.registers,
        exec_spec(c, m, opcode).0.rsp == c.rsp,
        exec_spec(c, m, opcode).0.rflags == c.rflags,
        exec_spec(c, m, opcode).0.rip == (if opcode == 0x74 && (c.rflags / 64) % 2 != 1 {
            wrap(c.rip + 2)
        } else {
            wrap(c.rip + sext8(b) + 2)
        }),
{
    reveal(exec_spec);
}

/// `JMP rel8` (`0xEB` or `0xE9`, then one byte) moves the program counter to
/// the address after the two bytes plus the byte read as a signed number
/// (modulo 2^64); `JE rel8` (`0x74`) does so when bit 6 of the flags is set and
/// otherwise only moves past the two bytes. The registers, the stack and the
/// flags stay and no byte of memory changes.
pub proof fn law_exec_jumps(c: CoreView, m: MemView, opcode: u8)
    requires
        opcode == 0x74 || opcode == 0xEB || opcode == 0xE9,
        pages_ok(m),
        c.rip + 2 <= m.size,
    ensures
        ({
            let (c2, m2, r) = exec_spec(c, m, opcode);
            let b = byte_at(m, (c.rip + 1) as u64);
            let off: int = if b < 128 { b as int } else { b - 256 };
            let target = (c.rip + 2 + off) % 0x1_0000_0000_0000_0000;
            &&& r is Ok
            &&& (opcode != 0x74 || (c.rflags / 64) % 2 == 1) ==> c2.rip == target
            &&& (opcode == 0x74 && (c.rflags / 64) % 2 == 0) ==> c2.rip == c.rip + 2
            &&& c2.registers == c.registers
            &&& c2.rsp == c.rsp
            &&& c2.rflags == c.rflags
            &&& forall|x: u64| #[trigger] byte_at(m2, x) == byte_at(m, x)
        }),
{
    let a1 = wrap(c.rip + 1);
    lemma_read_at_value(m, a1, 1);
    assert(le_at(m, a1 as int, 1) == byte_at(m, a1)) by {
        reveal_with_fuel(le_at, 2);
    }
    lemma_exec_jump_shape(c, m, opcode, byte_at(m, a1) as nat);
}

/// A step of a running core without the block compiler, on an `ADD` (`0x10`)
/// or `SUB` (`0x11`) at the program counter that the cache does not hold yet:
/// R2 becomes R0 + R1 or R0 - R1 (modulo 2^64), whatever it held, the other
/// registers stay, the program counter moves by one and one more instruction
/// is counted.
pub proof fn law_core_step_add_sub(c: CoreView, m: MemView)
    requires
        c.status != CoreStatus::Halted,
        !c.jit.enabled,
        c.registers.len() == 16,
        pages_ok(m),
        c.rip < m.size,
        byte_at(m, c.rip) == 0x10 || byte_at(m, c.rip) == 0x11,
        !c.cache.entries.contains_key(c.rip),
        c.instructions_executed < u64::MAX,
    ensures
        ({
            let (c2, _m2, r) = core_step(c, m);
            let op = byte_at(m, c.rip);
            &&& r is Ok
            &&& c2.registers.len() == 16
            &&& op == 0x10 ==> c2.registers[2] == (c.registers[0] + c.registers[1]) % 0x1_0000_0000_0000_0000
            &&& op == 0x11 ==> c2.registers[2] == (c.registers[0] - c.registers[1]) % 0x1_0000_0000_0000_0000
            &&& forall|j: int| 0 <= j < 16 && j != 2 ==> #[trigger] c2.registers[j] == c.registers[j]
            &&& c2.rip == (c.rip + 1) % 0x1_0000_0000_0000_0000
            &&& c2.instructions_executed == c.instructions_executed + 1
        }),
{
    let c1 = CoreView { cycles: (c.cycles + 1) as u64, ..c };
    lemma_read_at_value(m, c.rip, 1);
    assert(le_at(m, c.rip as int, 1) == byte_at(m, c.rip)) by {
        reveal_with_fuel(le_at, 2);
    }
    let op = byte_at(m, c.rip);
    let m1 = read_at(m, c.rip, 1).1;
    assert(decode_spec(c.rip, m1, op).1 == m1 && decode_spec(c.rip, m1, op).0 is Ok) by {
        reveal(decode_spec);
    }
    let c3 = fetch_spec(c1, m).0;
    assert(fetch_spec(c1, m).2 == Ok::<u8, Seq<char>>(op));
    assert(c3.registers == c.registers);
    assert(c3.rip == c.rip);
    assert(!c3.jit.enabled);
    law_exec_add_sub(c3, fetch_spec(c1, m).1, op);
}

/// Decoding an opcode with no operand bytes reads nothing and gives: `ADD R0,
/// R1` for `0x10` and `0x81`, `SUB R0, R1` for `0x11` and `0x83` (operands R0
/// then R1, one cycle), `HLT` for `0xF4` and `NOP` for `0x90` (no operand, one
/// cycle), `RET` for `0xC3` (no operand, two cycles); no flags.
pub proof fn law_decode_without_operand_bytes(rip: u64, m: MemView, opcode: u8)
    requires
        opcode == 0x10 || opcode == 0x81 || opcode == 0x11 || opcode == 0x83 || opcode == 0xF4 || opcode == 0x90
            || opcode == 0xC3,
    ensures
        ({
            let (r, m2) = decode_spec(rip, m, opcode);
            let d = r->Ok_0;
            &&& m2 == m
            &&& r is Ok
            &&& d.flags == 0
            &&& (opcode == 0x10 || opcode == 0x81) ==> d.op_type == OpType::Add
            &&& (opcode == 0x11 || opcode == 0x83) ==> d.op_type == OpType::Sub
            &&& (opcode == 0x10 || opcode == 0x81 || opcode == 0x11 || opcode == 0x83) ==> {
                &&& d.operands.len() == 2
                &&& d.operands[0].reg == Some(0usize) && d.operands[0].imm is None
                &&& d.operands[1].reg == Some(1usize) && d.operands[1].imm is None
                &&& d.cycles == 1
            }
            &&& opcode == 0xF4 ==> d.op_type == OpType::Halt && d.operands.len() == 0 && d.cycles == 1
            &&& opcode == 0x90 ==> d.op_type == OpType::Nop && d.operands.len() == 0 && d.cycles == 1
            &&& opcode == 0xC3 ==> d.op_type == OpType::Ret && d.operands.len() == 0 && d.cycles == 2
        }),
{
    reveal(decode_spec);
}

/// Any opcode the decoder does not know is refused with
/// "Opcode desconhecido: 0x" and its two hexadecimal digits, reading nothing.
pub proof fn law_decode_unknown(rip: u64, m: MemView, opcode: u8)
    requires
        !(opcode == 0x48 || opcode == 0x10 || opcode == 0x81 || opcode == 0x11 || opcode == 0x83 || opcode == 0xF4
            || opcode == 0xEB || opcode == 0xE9 || opcode == 0x74 || opcode == 0x75 || opcode == 0x7C || opcode == 0x7D
            || opcode == 0xE8 || opcode == 0xC3 || opcode == 0x90),
    ensures
        decode_spec(rip, m, opcode) == (Err::<DecodedView, Seq<char>>("Opcode desconhecido: 0x"@ + hex2(opcode as nat)), m),
{
    reveal(decode_spec);
}

/// What decoding an opcode with operand bytes gives, in terms of the reads.
proof fn lemma_decode_read_shape(rip: u64, m: MemView, opcode: u8, b: nat, v: nat)
    requires
        read_at(m, wrap(rip + 1), 1).0 == Ok::<nat, Seq<char>>(b),
        opcode == 0x48 ==> read_at(read_at(m, wrap(rip + 1), 1).1, wrap(rip + 2), 8).0 == Ok::<nat, Seq<char>>(v),
        opcode == 0xE8 ==> read_at(m, wrap(rip + 1), 4).0 == Ok::<nat, Seq<char>>(v),
    ensures
        (opcode == 0xEB || opcode == 0xE9 || opcode == 0x74 || opcode == 0x75 || opcode == 0x7C || opcode == 0x7D)
            ==> decode_spec(rip, m, opcode).0 == Ok::<DecodedView, Seq<char>>(
            decoded(OpType::Jump, seq![imm_operand(b as u64, 1)], 1),
        ),
        opcode == 0xE8 ==> decode_spec(rip, m, opcode).0 == Ok::<DecodedView, Seq<char>>(
            decoded(OpType::Call, seq![imm_operand(v as u64, 4)], 2),
        ),
        opcode == 0x48 && 0xB8 <= b <= 0xBF ==> decode_spec(rip, m, opcode).0 == Ok::<DecodedView, Seq<char>>(
            decoded(OpType::Mov, seq![reg_operand((b - 0xB8) as usize), imm_operand(v as u64, 8)], 1),
        ),
{
    reveal(decode_spec);
}

/// Decoding an opcode with operand bytes inside the memory reads them as
/// little-endian numbers: a jump (`0xEB`, `0xE9`, `0x74`, `0x75`, `0x7C`,
/// `0x7D`) carries the next byte as a 1-byte immediate (one cycle), `CALL`
/// (`0xE8`) the next 4 bytes as a 4-byte immediate (two cycles), and `MOV`
/// (`0x48`, then `0xB8 + r`) register `r` and the 8 bytes after as an 8-byte
/// immediate (one cycle).
pub proof fn law_decode_reads_operands(rip: u64, m: MemView, opcode: u8)
    requires
        pages_ok(m),
        rip + 10 <= m.size,
    ensures
        ({
            let d = decode_spec(rip, m, opcode).0->Ok_0;
            let b = byte_at(m, (rip + 1) as u64);
            &&& (opcode == 0xEB || opcode == 0xE9 || opcode == 0x74 || opcode == 0x75 || opcode == 0x7C || opcode
                == 0x7D) ==> {
                &&& decode_spec(rip, m, opcode).0 is Ok
                &&& d.op_type == OpType::Jump && d.cycles == 1 && d.operands.len() == 1
                &&& d.operands[0].imm == Some(b as u64) && d.operands[0].size == 1 && d.operands[0].reg is None
            }
            &&& opcode == 0xE8 ==> {
                &&& decode_spec(rip, m, opcode).0 is Ok
                &&& d.op_type == OpType::Call && d.cycles == 2 && d.operands.len() == 1
                &&& d.operands[0].imm == Some(le_at(m, rip + 1, 4) as u64) && d.operands[0].size == 4
            }
            &&& (opcode == 0x48 && 0xB8 <= b <= 0xBF) ==> {
                &&& decode_spec(rip, m, opcode).0 is Ok
                &&& d.op_type == OpType::Mov && d.cycles == 1 && d.operands.len() == 2
                &&& d.operands[0].reg == Some((b - 0xB8) as usize)
                &&& d.operands[1].imm == Some(le_at(m, rip + 2, 8) as u64) && d.operands[1].size == 8
            }
        }),
{
    let a1 = wrap(rip + 1);
    lemma_read_at_value(m, a1, 1);
    assert(le_at(m, a1 as int, 1) == byte_at(m, a1)) by {
        reveal_with_fuel(le_at, 2);
    }
    let b = byte_at(m, a1) as nat;
    if opcode == 0xE8 {
        lemma_read_at_value(m, a1, 4);
        lemma_decode_read_shape(rip, m, opcode, b, le_at(m, a1 as int, 4));
    } else if opcode == 0x48 {
        let m1 = read_at(m, a1, 1).1;
        let a2 = wrap(rip + 2);
        lemma_read_at_value(m1, a2, 8);
        lemma_le_at_same(m1, m, a2 as int, 8);
        lemma_decode_read_shape(rip, m, opcode, b, le_at(m, a2 as int, 8));
    } else {
        lemma_decode_read_shape(rip, m, opcode, b, 0);
    }
}

/// Two memories holding the same bytes hold the same numbers.
proof fn lemma_le_at_same(m1: MemView, m2: MemView, a: int, n: nat)
    requires
        forall|x: u64| #[trigger] byte_at(m1, x) == byte_at(m2, x),
    ensures
        le_at(m1, a, n) == le_at(m2, a, n),
    decreases n,
{
    if n > 0 {
        lemma_le_at_same(m1, m2, a + 1, (n - 1) as nat);
        assert(byte_at(m1, a as u64) == byte_at(m2, a as u64));
    }
}

/// The number held in `n` bytes is below `256^n`.
proof fn lemma_le_at_bound(m: MemView, a: int, n: nat)
    ensures
        le_at(m, a, n) < pow256(n),
    decreases n,
{
    if n > 0 {
        lemma_le_at_bound(m, a + 1, (n - 1) as nat);
        let b = byte_at(m, a as u64);
        let rest = le_at(m, a + 1, (n - 1) as nat);
        let p = pow256((n - 1) as nat);
        assert(b + 256 * rest < 256 * p) by (nonlinear_arith)
            requires
                b < 256,
                rest < p,
                rest >= 0,
        ;
    }
}

/// Every counter of the core is at least `k` below its limit.
pub open spec fn counters_room(c: CoreView, k: nat) -> bool {
    &&& c.instructions_executed + k <= u64::MAX
    &&& c.cycles + k <= u64::MAX
    &&& c.cache.hits + k <= u64::MAX
    &&& c.cache.misses + k <= u64::MAX
    &&& c.predictor.correct + k <= u64::MAX
    &&& c.predictor.incorrect + k <= u64::MAX
    &&& c.jit.hit_count + k <= u64::MAX
    &&& c.jit.miss_count + k <= u64::MAX
}

/// No counter of `b` is more than `k` above its value in `a`.
pub open spec fn counters_within(a: CoreView, b: CoreView, k: nat) -> bool {
    &&& b.instructions_executed <= a.instructions_executed + k
    &&& b.cycles <= a.cycles + k
    &&& b.cache.hits <= a.cache.hits + k
    &&& b.cache.misses <= a.cache.misses + k
    &&& b.predictor.correct <= a.predictor.correct + k
    &&& b.predictor.incorrect <= a.predictor.incorrect + k
    &&& b.jit.hit_count <= a.jit.hit_count + k
    &&& b.jit.miss_count <= a.jit.miss_count + k
}

/// Compiled blocks hold at most `MAX_BLOCK_LEN` instructions.
pub open spec fn blocks_bounded(j: JitView) -> bool {
    forall|a: u64| #[trigger] j.compiled.contains_key(a) ==> j.compiled[a].instructions.len() <= MAX_BLOCK_LEN
}

/// Room a step needs in every counter.
pub const STEP_ROOM: u64 = 64;

fn load8(memory: &mut VirtualMemory, a: u64) -> (r: Result<u8, String>)
    requires
        old(memory).wf(),
    ensures
        final(memory).wf(),
        ({
            let (res, m) = read_at(old(memory)@, a, 1);
            &&& final(memory)@ == m
            &&& match res {
                Ok(v) => r matches Ok(b) && b == v,
                Err(t) => r matches Err(e) && e@ == t,
            }
        }),
{
    proof {
        reveal_with_fuel(read_bytes, 2);
        reveal_with_fuel(le_value, 2);
    }
    memory.read8(a)
}

fn load32(memory: &mut VirtualMemory, a: u64) -> (r: Result<u32, String>)
    requires
        old(memory).wf(),
    ensures
        final(memory).wf(),
        ({
            let (res, m) = read_at(old(memory)@, a, 4);
            &&& final(memory)@ == m
            &&& match res {
                Ok(v) => r matches Ok(b) && b == v,
                Err(t) => r matches Err(e) && e@ == t,
            }
        }),
{
    memory.read32(a)
}

fn load64(memory: &mut VirtualMemory, a: u64) -> (r: Result<u64, String>)
    requires
        old(memory).wf(),
    ensures
        final(memory).wf(),
        ({
            let (res, m) = read_at(old(memory)@, a, 8);
            &&& final(memory)@ == m
            &&& match res {
                Ok(v) => r matches Ok(b) && b == v,
                Err(t) => r matches Err(e) && e@ == t,
            }
        }),
{
    memory.read64(a)
}

fn sign_extend8(b: u8) -> (r: u64)
    ensures
        r == wrap(sext8(b as nat)),
{
    if b < 128 {
        b as u64
    } else {
        b as u64 + 0xFFFF_FFFF_FFFF_FF00
    }
}

fn sign_extend32(v: u32) -> (r: u64)
    ensures
        r == wrap(sext32(v as nat)),
{
    if v < 0x8000_0000 {
        v as u64
    } else {
        v as u64 + 0xFFFF_FFFF_0000_0000
    }
}

proof fn lemma_wrap_add(a: u64, b: u64, x: int)
    requires
        b == wrap(x),
    ensures
        wrap(a + b) == wrap(a + x),
{
    assert((a + b) % 0x1_0000_0000_0000_0000 == (a + x) % 0x1_0000_0000_0000_0000) by (nonlinear_arith)
        requires
            b == (x % 0x1_0000_0000_0000_0000),
    ;
}


/// `a + b` modulo 2^64.
fn add_wrap(a: u64, b: u64) -> (r: u64)
    ensures
        r == wrap(a + b),
{
    if a > u64::MAX - b {
        b - (u64::MAX - a) - 1
    } else {
        a + b
    }
}

/// `a - b` modulo 2^64.
fn sub_wrap(a: u64, b: u64) -> (r: u64)
    ensures
        r == wrap(a - b),
{
    if a >= b {
        a - b
    } else {
        u64::MAX - (b - a) + 1
    }
}

/// The result of decoding, as the exec function reports it.
pub open spec fn decode_reported(res: Result<DecodedView, Seq<char>>, r: Result<DecodedInstruction, String>) -> bool {
    match res {
        Ok(d) => r matches Ok(x) && x@ == d,
        Err(t) => r matches Err(e) && e@ == t,
    }
}

/// An outcome as the exec function reports it.
pub open spec fn outcome_reported(res: Result<(), Seq<char>>, r: Result<(), String>) -> bool {
    match res {
        Ok(_) => r is Ok,
        Err(t) => r matches Err(e) && e@ == t,
    }
}

impl CpuCoreOptimized {
    /// A core with id `core_id`: registers at zero, stack pointer at
    /// `INITIAL_RSP`, active at 3500 MHz, with empty cache, predictor, pipeline and
    /// compiler.
    pub fn new(core_id: usize) -> (r: Self)
        ensures
            r@ == fresh_core(core_id),
    {
        let r = CpuCoreOptimized {
            registers: [0u64; 16],
            rip: 0,
            rsp: INITIAL_RSP,
            rbp: 0,
            rflags: 0,
            core_id,
            status: CoreStatus::Active,
            frequency_mhz: 3500,
            instructions_executed: 0,
            cycles: 0,
            cache: InstructionCache::new(),
            branch_predictor: BranchPredictor::new(),
            pipeline: Pipeline::new(),
            jit: JitCompiler::new(),
        };
        proof {
            assert(r@.registers =~= Seq::new(16, |i: int| 0u64));
        }
        r
    }

    /// Decodes `opcode`; its operands are read after the program counter.
    fn decode_instruction(&self, opcode: u8, memory: &mut VirtualMemory) -> (r: Result<DecodedInstruction, String>)
        requires
            old(memory).wf(),
        ensures
            final(memory).wf(),
            final(memory)@ == decode_spec(self.rip, old(memory)@, opcode).1,
            decode_reported(decode_spec(self.rip, old(memory)@, opcode).0, r),
    {
        reveal(decode_spec);
        let mut operands: Vec<Operand> = Vec::new();
        if opcode == 0x48 {
            let next = load8(memory, add_wrap(self.rip, 1))?;
            if next >= 0xB8 && next <= 0xBF {
                operands.push(Operand { reg: Some((next - 0xB8) as usize), imm: None, addr: None, size: 8 });
                let imm = load64(memory, add_wrap(self.rip, 2))?;
                operands.push(Operand { reg: None, imm: Some(imm), addr: None, size: 8 });
                proof {
                    assert(operands@ =~= seq![reg_operand((next - 0xB8) as usize), imm_operand(imm, 8)]);
                }
            }
            proof {
                if !(next >= 0xB8 && next <= 0xBF) {
                    assert(operands@ =~= Seq::<Operand>::empty());
                }
            }
            Ok(DecodedInstruction { op_type: OpType::Mov, operands, flags: 0, cycles: 1 })
        } else if opcode == 0x10 || opcode == 0x81 || opcode == 0x11 || opcode == 0x83 {
            operands.push(Operand { reg: Some(0), imm: None, addr: None, size: 8 });
            operands.push(Operand { reg: Some(1), imm: None, addr: None, size: 8 });
            proof {
                assert(operands@ =~= seq![reg_operand(0), reg_operand(1)]);
            }
            let op_type = if opcode == 0x10 || opcode == 0x81 { OpType::Add } else { OpType::Sub };
            Ok(DecodedInstruction { op_type, operands, flags: 0, cycles: 1 })
        } else if opcode == 0xF4 {
            proof {
                assert(operands@ =~= Seq::<Operand>::empty());
            }
            Ok(DecodedInstruction { op_type: OpType::Halt, operands, flags: 0, cycles: 1 })
        } else if opcode == 0xEB || opcode == 0xE9 || opcode == 0x74 || opcode == 0x75 || opcode == 0x7C || opcode == 0x7D {
            let off = load8(memory, add_wrap(self.rip, 1))?;
            operands.push(Operand { reg: None, imm: Some(off as u64), addr: None, size: 1 });
            proof {
                assert(operands@ =~= seq![imm_operand(off as u64, 1)]);
            }
            Ok(DecodedInstruction { op_type: OpType::Jump, operands, flags: 0, cycles: 1 })
        } else if opcode == 0xE8 {
            let off = load32(memory, add_wrap(self.rip, 1))?;
            operands.push(Operand { reg: None, imm: Some(off as u64), addr: None, size: 4 });
            proof {
                assert(operands@ =~= seq![imm_operand(off as u64, 4)]);
            }
            Ok(DecodedInstruction { op_type: OpType::Call, operands, flags: 0, cycles: 2 })
        } else if opcode == 0xC3 {
            proof {
                assert(operands@ =~= Seq::<Operand>::empty());
            }
            Ok(DecodedInstruction { op_type: OpType::Ret, operands, flags: 0, cycles: 2 })
        } else if opcode == 0x90 {
            proof {
                assert(operands@ =~= Seq::<Operand>::empty());
            }
            Ok(DecodedInstruction { op_type: OpType::Nop, operands, flags: 0, cycles: 1 })
        } else {
            Err(undecodable_message(opcode))
        }
    }

    /// Executes `opcode` at the program counter.
    fn execute_instruction(&mut self, opcode: u8, memory: &mut VirtualMemory) -> (r: Result<(), String>)
        requires
            old(memory).wf(),
            old(self).branch_predictor.correct < u64::MAX,
            old(self).branch_predictor.incorrect < u64::MAX,
        ensures
            final(memory).wf(),
            ({
                let (c, m, res) = exec_spec(old(self)@, old(memory)@, opcode);
                &&& final(self)@ == c
                &&& final(memory)@ == m
                &&& outcome_reported(res, r)
            }),
    {
        reveal(exec_spec);
        if opcode == 0x48 {
            let next = load8(memory, add_wrap(self.rip, 1))?;
            if next >= 0xB8 && next <= 0xBF {
                let reg = (next - 0xB8) as usize;
                let value = load64(memory, add_wrap(self.rip, 2))?;
                self.registers[reg] = value;
                self.rip = add_wrap(self.rip, 10);
            } else {
                self.rip = add_wrap(self.rip, 1);
            }
        } else if opcode == 0x10 {
            self.registers[2] = add_wrap(self.registers[0], self.registers[1]);
            self.rip = add_wrap(self.rip, 1);
        } else if opcode == 0x11 {
            self.registers[2] = sub_wrap(self.registers[0], self.registers[1]);
            self.rip = add_wrap(self.rip, 1);
        } else if opcode == 0x3D {
            let imm = load32(memory, add_wrap(self.rip, 1))? as u64;
            let result = sub_wrap(self.registers[0], imm);
            self.rflags = if result == 0 { 1 } else { 0 };
            self.rip = add_wrap(self.rip, 5);
        } else if opcode == 0x74 {
            let off = load8(memory, add_wrap(self.rip, 1))?;
            let flags = self.rflags;
            let zero_flag = flags & 0x40 != 0;
            assert(zero_flag == ((flags / 64) % 2 == 1)) by (bit_vector)
                requires
                    zero_flag == (flags & 0x40 != 0),
            ;
            if zero_flag {
                let delta = add_wrap(sign_extend8(off), 2);
                proof {
                    assert(wrap(wrap(sext8(off as nat)) + 2) == wrap(sext8(off as nat) + 2)) by {
                        lemma_wrap_add(2, wrap(sext8(off as nat)), sext8(off as nat));
                    }
                    lemma_wrap_add(self.rip, delta, sext8(off as nat) + 2);
                }
                self.rip = add_wrap(self.rip, delta);
                self.branch_predictor.update(self.rip, true);
            } else {
                self.rip = add_wrap(self.rip, 2);
                self.branch_predictor.update(self.rip, false);
            }
        } else if opcode == 0xEB || opcode == 0xE9 {
            let off = load8(memory, add_wrap(self.rip, 1))?;
            let delta = add_wrap(sign_extend8(off), 2);
            proof {
                assert(wrap(wrap(sext8(off as nat)) + 2) == wrap(sext8(off as nat) + 2)) by {
                    lemma_wrap_add(2, wrap(sext8(off as nat)), sext8(off as nat));
                }
                lemma_wrap_add(self.rip, delta, sext8(off as nat) + 2);
            }
            self.rip = add_wrap(self.rip, delta);
            self.branch_predictor.update(self.rip, true);
        } else if opcode == 0xE8 {
            let off = load32(memory, add_wrap(self.rip, 1))?;
            self.rsp = sub_wrap(self.rsp, 8);
            let ret = add_wrap(self.rip, 5);
            memory.write64(self.rsp, ret)?;
            let delta = add_wrap(sign_extend32(off), 5);
            proof {
                assert(wrap(wrap(sext32(off as nat)) + 5) == wrap(sext32(off as nat) + 5)) by {
                    lemma_wrap_add(5, wrap(sext32(off as nat)), sext32(off as nat));
                }
                lemma_wrap_add(self.rip, delta, sext32(off as nat) + 5);
            }
            self.rip = add_wrap(self.rip, delta);
        } else if opcode == 0xC3 {
            let return_addr = load64(memory, self.rsp)?;
            self.rsp = add_wrap(self.rsp, 8);
            self.rip = return_addr;
        } else if opcode == 0xF4 {
            self.status = CoreStatus::Halted;
            self.rip = add_wrap(self.rip, 1);
        } else {
            self.rip = add_wrap(self.rip, 1);
        }
        Ok(())
    }
}


/// The result of collecting, as the exec function reports it.
pub open spec fn collect_reported(res: Result<Seq<DecodedView>, Seq<char>>, r: Result<Vec<DecodedInstruction>, String>) -> bool {
    match res {
        Ok(v) => r matches Ok(x) && decoded_views(x@) == v,
        Err(t) => r matches Err(e) && e@ == t,
    }
}

/// Whether `op` ends a block.
fn is_block_end(op: OpType) -> (b: bool)
    ensures
        b == ends_block(op),
{
    match op {
        OpType::Jump | OpType::Call | OpType::Ret | OpType::Halt => true,
        _ => false,
    }
}

impl CpuCoreOptimized {
    /// Collects the block that starts at `start_addr`: at most `MAX_BLOCK_LEN`
    /// instructions, up to the first that ends a block.
    fn collect_basic_block(&self, start_addr: u64, memory: &mut VirtualMemory) -> (r: Result<Vec<DecodedInstruction>, String>)
        requires
            old(memory).wf(),
        ensures
            final(memory).wf(),
            final(memory)@ == collect_spec(self.rip, old(memory)@, start_addr, MAX_BLOCK_LEN as nat, Seq::empty()).1,
            collect_reported(collect_spec(self.rip, old(memory)@, start_addr, MAX_BLOCK_LEN as nat, Seq::empty()).0, r),
            r matches Ok(v) ==> v@.len() <= MAX_BLOCK_LEN,
    {
        let mut instructions: Vec<DecodedInstruction> = Vec::new();
        let mut addr = start_addr;
        let mut n: u64 = 0;
        proof {
            assert(decoded_views(instructions@) =~= Seq::<DecodedView>::empty());
        }
        while n < MAX_BLOCK_LEN
            invariant
                memory.wf(),
                n <= MAX_BLOCK_LEN,
                instructions@.len() == n,
                collect_spec(self.rip, memory@, addr, (MAX_BLOCK_LEN - n) as nat, decoded_views(instructions@))
                    == collect_spec(self.rip, old(memory)@, start_addr, MAX_BLOCK_LEN as nat, Seq::empty()),
            decreases MAX_BLOCK_LEN - n,
        {
            let opcode = match load8(memory, addr) {
                Ok(b) => b,
                Err(e) => {
                    if instructions.len() == 0 {
                        return Err(e);
                    } else {
                        return Ok(instructions);
                    }
                },
            };
            let decoded = match self.decode_instruction(opcode, memory) {
                Ok(d) => d,
                Err(e) => {
                    if instructions.len() == 0 {
                        return Err(e);
                    } else {
                        return Ok(instructions);
                    }
                },
            };
            let ends = is_block_end(decoded.op_type);
            let ghost before = instructions@;
            instructions.push(decoded);
            proof {
                assert(decoded_views(instructions@) =~= decoded_views(before).push(decoded@));
            }
            if ends {
                return Ok(instructions);
            }
            addr = add_wrap(addr, 1);
            n = n + 1;
        }
        Ok(instructions)
    }

    /// Fetches and executes instruction `i` of `block`.
    fn run_block_instruction(&mut self, block: &JitBlock, i: usize, memory: &mut VirtualMemory) -> (r: Result<(), String>)
        requires
            old(memory).wf(),
            counters_room(old(self)@, 1),
        ensures
            final(memory).wf(),
            counters_within(old(self)@, final(self)@, 1),
            final(self)@.jit == old(self)@.jit,
            final(self)@.instructions_executed == old(self)@.instructions_executed,
            final(self)@.cycles == old(self)@.cycles,
            ({
                let (c, m, res) = block_inst_spec(old(self)@, old(memory)@, block@, i as nat);
                &&& final(self)@ == c
                &&& final(memory)@ == m
                &&& outcome_reported(res, r)
            }),
    {
        let addr = add_wrap(block.start_addr, i as u64);
        let opcode = match self.cache.get(addr) {
            Some(cached) => cached.opcode,
            None => load8(memory, addr)?,
        };
        proof {
            lemma_exec_frame(self@, memory@, opcode);
        }
        self.execute_instruction(opcode, memory)
    }

    /// Runs the compiled block `block`, then moves the program counter to its end.
    fn execute_jit_block(&mut self, block: &JitBlock, memory: &mut VirtualMemory) -> (r: Result<(), String>)
        requires
            old(memory).wf(),
            block@.instructions.len() <= MAX_BLOCK_LEN,
            counters_room(old(self)@, 40),
        ensures
            final(memory).wf(),
            counters_within(old(self)@, final(self)@, MAX_BLOCK_LEN as nat),
            final(self)@.jit == old(self)@.jit,
            ({
                let (c, m, res) = block_spec(old(self)@, old(memory)@, block@, 0);
                &&& final(self)@ == c
                &&& final(memory)@ == m
                &&& outcome_reported(res, r)
            }),
    {
        let mut i: usize = 0;
        while i < block.instructions.len()
            invariant
                memory.wf(),
                i <= block@.instructions.len() <= MAX_BLOCK_LEN,
                counters_room(self@, (40 - i) as nat),
                counters_within(old(self)@, self@, i as nat),
                self@.jit == old(self)@.jit,
                block_spec(self@, memory@, block@, i as nat) == block_spec(old(self)@, old(memory)@, block@, 0),
            decreases block@.instructions.len() - i,
        {
            self.run_block_instruction(block, i, memory)?;
            self.instructions_executed = self.instructions_executed + 1;
            self.cycles = self.cycles + 1;
            i = i + 1;
        }
        self.rip = block.end_addr;
        Ok(())
    }

    /// One step: fetch through the cache, then run the compiled block at the
    /// program counter (compiling it first if it is new).
    pub fn step(&mut self, memory: &mut VirtualMemory) -> (r: Result<(), String>)
        requires
            old(memory).wf(),
            counters_room(old(self)@, STEP_ROOM as nat),
            blocks_bounded(old(self)@.jit),
        ensures
            final(memory).wf(),
            blocks_bounded(final(self)@.jit),
            counters_within(old(self)@, final(self)@, STEP_ROOM as nat),
            ({
                let (c, m, res) = core_step(old(self)@, old(memory)@);
                &&& final(self)@ == c
                &&& final(memory)@ == m
                &&& outcome_reported(res, r)
            }),
    {
        if self.status == CoreStatus::Halted {
            return Ok(());
        }
        self.cycles = self.cycles + 1;
        let opcode = self.fetch(memory)?;
        if self.jit.enabled {
            return self.run_compiled_block(memory);
        }
        proof {
            lemma_exec_frame(self@, memory@, opcode);
        }
        self.execute_instruction(opcode, memory)?;
        self.instructions_executed = self.instructions_executed + 1;
        Ok(())
    }

    /// Fetches the instruction at the program counter through the cache.
    fn fetch(&mut self, memory: &mut VirtualMemory) -> (r: Result<u8, String>)
        requires
            old(memory).wf(),
            old(self).cache.hits < u64::MAX,
            old(self).cache.misses < u64::MAX,
        ensures
            final(memory).wf(),
            final(self)@.jit == old(self)@.jit,
            counters_within(old(self)@, final(self)@, 1),
            ({
                let (c, m, res) = fetch_spec(old(self)@, old(memory)@);
                &&& final(self)@ == c
                &&& final(memory)@ == m
                &&& match res {
                    Ok(v) => r matches Ok(b) && b == v,
                    Err(t) => r matches Err(e) && e@ == t,
                }
            }),
    {
        let tick = self.cycles;
        let rip = self.rip;
        match self.cache.get(rip) {
            Some(cached) => Ok(cached.opcode),
            None => {
                let opcode = load8(memory, rip)?;
                let decoded = self.decode_instruction(opcode, memory)?;
                self.cache.insert(rip, CachedInstruction { opcode, size: 1, decoded, last_used: tick });
                Ok(opcode)
            },
        }
    }

    /// Runs the compiled block at the program counter, compiling it first if new.
    fn run_compiled_block(&mut self, memory: &mut VirtualMemory) -> (r: Result<(), String>)
        requires
            old(memory).wf(),
            counters_room(old(self)@, 41),
            blocks_bounded(old(self)@.jit),
        ensures
            final(memory).wf(),
            blocks_bounded(final(self)@.jit),
            counters_within(old(self)@, final(self)@, 33),
            ({
                let (c, m, res) = run_block_spec(old(self)@, old(memory)@);
                &&& final(self)@ == c
                &&& final(memory)@ == m
                &&& outcome_reported(res, r)
            }),
    {
        let rip = self.rip;
        let found = match self.jit.get(rip) {
            Some(b) => Some(copy_block(b)),
            None => None,
        };
        match found {
            Some(block) => {
                self.execute_jit_block(&block, memory)
            },
            None => {
                let instructions = self.collect_basic_block(rip, memory)?;
                let block = self.jit.compile(rip, instructions);
                proof {
                    assert(blocks_bounded(self@.jit));
                }
                self.execute_jit_block(&block, memory)
            },
        }
    }

    /// Puts the core back in its initial state: registers, stack pointer, flags,
    /// status and counters, with the cache and the compiled blocks emptied (the
    /// predictor, the pipeline and the compiler's hit counts are kept).
    pub fn reset(&mut self)
        ensures
            final(self)@ == reset_core(old(self)@),
    {
        self.registers = [0u64; 16];
        self.rip = 0;
        self.rsp = INITIAL_RSP;
        self.rbp = 0;
        self.rflags = 0;
        self.status = CoreStatus::Active;
        self.instructions_executed = 0;
        self.cycles = 0;
        self.cache.clear();
        self.jit.compiled.clear();
        proof {
            assert(self@.registers =~= Seq::new(16, |i: int| 0u64));
            assert(self@.jit.compiled =~= Map::<u64, BlockView>::empty());
        }
    }
}

// ============================================================
// The eight-core processor
// ============================================================

/// The eight cores with the running totals of their counts.
pub struct Ps5CpuOptimized {
    pub cores: [CpuCoreOptimized; NUM_CORES],
    pub total_instructions: u64,
    pub total_cycles: u64,
    pub thread_pool: ThreadPool,
}

/// Abstract processor.
pub ghost struct Ps5View {
    pub cores: Seq<CoreView>,
    pub total_instructions: u64,
    pub total_cycles: u64,
}

impl View for Ps5CpuOptimized {
    type V = Ps5View;

    open spec fn view(&self) -> Ps5View {
        Ps5View {
            cores: self.cores@.map_values(|c: CpuCoreOptimized| c@),
            total_instructions: self.total_instructions,
            total_cycles: self.total_cycles,
        }
    }
}

/// Sum of the instruction counts of `cores`.
pub open spec fn instructions_sum(cores: Seq<CoreView>) -> int
    decreases cores.len(),
{
    if cores.len() == 0 {
        0
    } else {
        instructions_sum(cores.drop_last()) + cores.last().instructions_executed
    }
}

/// Sum of the cycle counts of `cores`.
pub open spec fn cycles_sum(cores: Seq<CoreView>) -> int
    decreases cores.len(),
{
    if cores.len() == 0 {
        0
    } else {
        cycles_sum(cores.drop_last()) + cores.last().cycles
    }
}

/// Stepping the cores from index `i` on, one after the other, over the shared
/// pages; a core that fails keeps the state it failed in, and the others go on.
pub open spec fn step_cores(cores: Seq<CoreView>, m: MemView, i: nat) -> (Seq<CoreView>, MemView)
    decreases cores.len() - i,
{
    if i >= cores.len() {
        (cores, m)
    } else {
        let (c, m1, _r) = core_step(cores[i as int], m);
        step_cores(cores.update(i as int, c), m1, i + 1)
    }
}

/// One step of every core; then the instruction and cycle counts of every core
/// (all that it ever counted) are added to the totals.
pub open spec fn step_all_spec(p: Ps5View, m: MemView) -> (Ps5View, MemView) {
    let (cores, m1) = step_cores(p.cores, m, 0);
    (
        Ps5View {
            cores,
            total_instructions: (p.total_instructions + instructions_sum(cores)) as u64,
            total_cycles: (p.total_cycles + cycles_sum(cores)) as u64,
        },
        m1,
    )
}

/// One step of the core `id`; on success its counts are added to the totals.
pub open spec fn step_core_spec(p: Ps5View, m: MemView, id: nat) -> (Ps5View, MemView, Result<(), Seq<char>>) {
    let (c, m1, r) = core_step(p.cores[id as int], m);
    let cores = p.cores.update(id as int, c);
    match r {
        Err(e) => (Ps5View { cores, ..p }, m1, Err(e)),
        Ok(_) => (
            Ps5View {
                cores,
                total_instructions: (p.total_instructions + c.instructions_executed) as u64,
                total_cycles: (p.total_cycles + c.cycles) as u64,
            },
            m1,
            Ok(()),
        ),
    }
}

/// Stepping the cores one by one from index `i` with `step_core`, stopping at
/// the first that fails.
pub open spec fn step_each_spec(p: Ps5View, m: MemView, i: nat) -> (Ps5View, MemView, Result<(), Seq<char>>)
    decreases NUM_CORES - i,
{
    if i >= NUM_CORES {
        (p, m, Ok(()))
    } else {
        let (p1, m1, r) = step_core_spec(p, m, i);
        if r is Err {
            (p1, m1, r)
        } else {
            step_each_spec(p1, m1, i + 1)
        }
    }
}

/// Every core is halted.
pub open spec fn all_halted(cores: Seq<CoreView>) -> bool {
    forall|i: int| 0 <= i < cores.len() ==> (#[trigger] cores[i]).status == CoreStatus::Halted
}

/// Up to `k` steps of every core, stopping after the first step that leaves all
/// of them halted.
pub open spec fn run_spec(p: Ps5View, m: MemView, k: nat) -> (Ps5View, MemView)
    decreases k,
{
    if k == 0 {
        (p, m)
    } else {
        let (p1, m1) = step_all_spec(p, m);
        if all_halted(p1.cores) {
            (p1, m1)
        } else {
            run_spec(p1, m1, (k - 1) as nat)
        }
    }
}

/// Every core has room for `k` more counts and compiled blocks of bounded size.
pub open spec fn cores_ready(cores: Seq<CoreView>, k: nat) -> bool {
    forall|i: int| 0 <= i < cores.len() ==> counters_room(#[trigger] cores[i], k) && blocks_bounded(cores[i].jit)
}

/// Room for `k` steps of every core: each step adds at most `STEP_ROOM` to each
/// count of each core, and then adds all the counts to the totals.
pub open spec fn run_room(p: Ps5View, k: nat) -> bool {
    &&& p.cores.len() == NUM_CORES
    &&& cores_ready(p.cores, 64 * k)
    &&& p.total_instructions + k * (instructions_sum(p.cores) + 512 * k) <= u64::MAX
    &&& p.total_cycles + k * (cycles_sum(p.cores) + 512 * k) <= u64::MAX
}

/// A sum over a prefix is at most the whole sum.
proof fn lemma_sums_prefix(s: Seq<CoreView>, i: int)
    requires
        0 <= i <= s.len(),
    ensures
        instructions_sum(s.take(i)) <= instructions_sum(s),
        cycles_sum(s.take(i)) <= cycles_sum(s),
        i < s.len() ==> instructions_sum(s.take(i + 1)) == instructions_sum(s.take(i)) + s[i].instructions_executed,
        i < s.len() ==> cycles_sum(s.take(i + 1)) == cycles_sum(s.take(i)) + s[i].cycles,
    decreases s.len() - i,
{
    if i < s.len() {
        assert(s.take(i + 1).drop_last() =~= s.take(i));
        lemma_sums_prefix(s, i + 1);
    } else {
        assert(s.take(i) =~= s);
    }
}

/// Sums of counts that grew by at most `k` each grew by at most `k` per core.
proof fn lemma_sums_within(a: Seq<CoreView>, b: Seq<CoreView>, k: nat)
    requires
        a.len() == b.len(),
        forall|i: int| 0 <= i < a.len() ==> counters_within(#[trigger] a[i], b[i], k),
    ensures
        instructions_sum(b) <= instructions_sum(a) + k * a.len(),
        cycles_sum(b) <= cycles_sum(a) + k * a.len(),
    decreases a.len(),
{
    if a.len() > 0 {
        let n = a.len() - 1;
        assert(counters_within(a[n as int], b[n as int], k));
        lemma_sums_within(a.drop_last(), b.drop_last(), k);
        assert(k * a.len() == k * n + k) by (nonlinear_arith)
            requires
                n == a.len() - 1,
        ;
    }
}

/// Sums of counts are never negative.
proof fn lemma_sums_nonneg(s: Seq<CoreView>)
    ensures
        instructions_sum(s) >= 0,
        cycles_sum(s) >= 0,
    decreases s.len(),
{
    if s.len() > 0 {
        lemma_sums_nonneg(s.drop_last());
    }
}

/// Room for `k >= 1` steps leaves room for the next step, and after it room for
/// `k - 1` more.
proof fn lemma_room_arith(t0: int, s0: int, s1: int, k: int)
    requires
        k >= 1,
        s0 >= 0,
        s1 <= s0 + 512,
        t0 + k * (s0 + 512 * k) <= u64::MAX,
    ensures
        t0 + s0 + 512 <= u64::MAX,
        (t0 + s1) + (k - 1) * (s1 + 512 * (k - 1)) <= u64::MAX,
{
    assert(t0 + s0 + 512 <= t0 + k * (s0 + 512 * k)) by (nonlinear_arith)
        requires
            k >= 1,
            s0 >= 0,
    ;
    assert((t0 + s1) + (k - 1) * (s1 + 512 * (k - 1)) <= t0 + k * (s0 + 512 * k)) by (nonlinear_arith)
        requires
            k >= 1,
            s0 >= 0,
            s1 <= s0 + 512,
    ;
}

/// Whether the compiled blocks of `jit` hold at most `MAX_BLOCK_LEN` instructions each.
fn blocks_within_limit(jit: &JitCompiler) -> (b: bool)
    ensures
        b == blocks_bounded(jit@),
{
    for (k, blk) in it: jit.compiled.iter()
        invariant
            forall|j: int| 0 <= j < it.index() ==> it.seq()[j].1.instructions@.len() <= MAX_BLOCK_LEN,
    {
        if blk.instructions.len() as u64 > MAX_BLOCK_LEN {
            proof {
                assert(jit@.compiled.contains_key(*k));
                assert(jit.compiled@[*k] == *blk);
            }
            return false;
        }
    }
    proof {
        assert forall|a: u64| #[trigger] jit@.compiled.contains_key(a) implies jit@.compiled[a].instructions.len() <= MAX_BLOCK_LEN by {
            assert(jit.compiled@.contains_key(a));
        }
    }
    true
}

/// Whether `c` has room for `room` more counts in each counter.
fn core_has_room(c: &CpuCoreOptimized, room: u128) -> (b: bool)
    ensures
        b == counters_room(c@, room as nat),
{
    let max = u64::MAX as u128;
    if room > max {
        return false;
    }
    let limit = max - room;
    c.instructions_executed as u128 <= limit
        && c.cycles as u128 <= limit
        && c.cache.hits as u128 <= limit
        && c.cache.misses as u128 <= limit
        && c.branch_predictor.correct as u128 <= limit
        && c.branch_predictor.incorrect as u128 <= limit
        && c.jit.hit_count as u128 <= limit
        && c.jit.miss_count as u128 <= limit
}

impl Ps5CpuOptimized {
    /// Whether the processor has room for `k` steps of every core (see `run_room`).
    pub fn run_fits(&self, k: u64) -> (b: bool)
        ensures
            b == run_room(self@, k as nat),
    {
        let room: u128 = 64 * (k as u128);
        let mut instr: u128 = 0;
        let mut cyc: u128 = 0;
        let mut i: usize = 0;
        while i < NUM_CORES
            invariant
                i <= NUM_CORES,
                room == 64 * k,
                instr == instructions_sum(self@.cores.take(i as int)),
                cyc == cycles_sum(self@.cores.take(i as int)),
                instr <= i * 0xFFFF_FFFF_FFFF_FFFF,
                cyc <= i * 0xFFFF_FFFF_FFFF_FFFF,
                cores_ready(self@.cores.take(i as int), 64 * k as nat),
            decreases NUM_CORES - i,
        {
            proof {
                lemma_sums_prefix(self@.cores, i as int);
                assert(self@.cores.take(i as int + 1).drop_last() =~= self@.cores.take(i as int));
            }
            let ok = core_has_room(&self.cores[i], room) && blocks_within_limit(&self.cores[i].jit);
            if !ok {
                proof {
                    assert(!cores_ready(self@.cores, 64 * k as nat)) by {
                        assert(self@.cores[i as int] == self.cores@[i as int]@);
                    }
                }
                return false;
            }
            instr = instr + self.cores[i].instructions_executed as u128;
            cyc = cyc + self.cores[i].cycles as u128;
            proof {
                assert(cores_ready(self@.cores.take(i as int + 1), 64 * k as nat)) by {
                    assert forall|j: int| 0 <= j < i + 1 implies counters_room(#[trigger] self@.cores.take(i as int + 1)[j], 64 * k as nat)
                        && blocks_bounded(self@.cores.take(i as int + 1)[j].jit) by {
                        if j < i {
                            assert(self@.cores.take(i as int + 1)[j] == self@.cores.take(i as int)[j]);
                        }
                    }
                }
            }
            i = i + 1;
        }
        proof {
            assert(self@.cores.take(NUM_CORES as int) =~= self@.cores);
        }
        let kk = k as u128;
        let max = u64::MAX as u128;
        let inner_i = instr + 512 * kk;
        let inner_c = cyc + 512 * kk;
        match (kk.checked_mul(inner_i), kk.checked_mul(inner_c)) {
            (Some(a), Some(b)) => {
                a <= max && b <= max && (self.total_instructions as u128) <= max - a && (self.total_cycles as u128)
                    <= max - b
            },
            _ => false,
        }
    }

    /// Eight new cores, numbered 0 to 7, with the totals at zero.
    pub fn new() -> (r: Self)
        ensures
            r@.cores == Seq::new(NUM_CORES as nat, |i: int| fresh_core(i as usize)),
            r@.total_instructions == 0,
            r@.total_cycles == 0,
            !r.thread_pool.running,
    {
        let cores = [
            CpuCoreOptimized::new(0),
            CpuCoreOptimized::new(1),
            CpuCoreOptimized::new(2),
            CpuCoreOptimized::new(3),
            CpuCoreOptimized::new(4),
            CpuCoreOptimized::new(5),
            CpuCoreOptimized::new(6),
            CpuCoreOptimized::new(7),
        ];
        let r = Ps5CpuOptimized { cores, total_instructions: 0, total_cycles: 0, thread_pool: ThreadPool::new() };
        proof {
            assert(r@.cores =~= Seq::new(NUM_CORES as nat, |i: int| fresh_core(i as usize)));
        }
        r
    }

    /// One step of every core, in order, over the shared memory (a core that
    /// fails is left as it failed and the others go on); then the instruction
    /// and cycle counts of every core are added to the totals.
    pub fn step_all(&mut self, memory: &mut VirtualMemory) -> (r: Result<(), String>)
        requires
            old(memory).wf(),
            cores_ready(old(self)@.cores, STEP_ROOM as nat),
            old(self)@.total_instructions + instructions_sum(old(self)@.cores) + 512 <= u64::MAX,
            old(self)@.total_cycles + cycles_sum(old(self)@.cores) + 512 <= u64::MAX,
        ensures
            final(memory).wf(),
            r is Ok,
            (final(self)@, final(memory)@) == step_all_spec(old(self)@, old(memory)@),
            forall|i: int| 0 <= i < NUM_CORES ==> counters_within(old(self)@.cores[i], #[trigger] final(self)@.cores[i], STEP_ROOM as nat),
            forall|i: int| 0 <= i < NUM_CORES ==> blocks_bounded((#[trigger] final(self)@.cores[i]).jit),
    {
        let ghost cores0 = self@.cores;
        let mut i: usize = 0;
        while i < NUM_CORES
            invariant
                i <= NUM_CORES,
                memory.wf(),
                self.total_instructions == old(self).total_instructions,
                self.total_cycles == old(self).total_cycles,
                cores0 == old(self)@.cores,
                cores_ready(cores0, STEP_ROOM as nat),
                step_cores(self@.cores, memory@, i as nat) == step_cores(cores0, old(memory)@, 0),
                forall|j: int| i <= j < NUM_CORES ==> #[trigger] self@.cores[j] == cores0[j],
                forall|j: int| 0 <= j < i ==> counters_within(cores0[j], #[trigger] self@.cores[j], STEP_ROOM as nat),
                forall|j: int| 0 <= j < i ==> blocks_bounded((#[trigger] self@.cores[j]).jit),
            decreases NUM_CORES - i,
        {
            let ghost before = self@.cores;
            let ghost mem_before = memory@;
            assert(counters_room(before[i as int], STEP_ROOM as nat));
            let _ = self.cores[i].step(memory);
            proof {
                let (c, m1, _r) = core_step(before[i as int], mem_before);
                assert(self@.cores =~= before.update(i as int, c));
                assert(memory@ == m1);
            }
            i = i + 1;
        }
        proof {
            assert(step_cores(self@.cores, memory@, NUM_CORES as nat) == (self@.cores, memory@));
            lemma_sums_within(cores0, self@.cores, STEP_ROOM as nat);
            lemma_sums_nonneg(self@.cores);
        }
        let ghost stepped = self@.cores;
        let mut j: usize = 0;
        while j < NUM_CORES
            invariant
                j <= NUM_CORES,
                self@.cores == stepped,
                stepped.len() == NUM_CORES,
                self.total_instructions == old(self).total_instructions + instructions_sum(stepped.take(j as int)),
                self.total_cycles == old(self).total_cycles + cycles_sum(stepped.take(j as int)),
                old(self).total_instructions + instructions_sum(stepped) <= u64::MAX,
                old(self).total_cycles + cycles_sum(stepped) <= u64::MAX,
            decreases NUM_CORES - j,
        {
            proof {
                lemma_sums_prefix(stepped, j as int);
                lemma_sums_prefix(stepped, j as int + 1);
                lemma_sums_nonneg(stepped.take(j as int));
            }
            self.total_instructions = self.total_instructions + self.cores[j].instructions_executed;
            self.total_cycles = self.total_cycles + self.cores[j].cycles;
            j = j + 1;
        }
        proof {
            assert(stepped.take(NUM_CORES as int) =~= stepped);
        }
        Ok(())
    }

    /// One step of the core `core_id`; on success its instruction and cycle
    /// counts are added to the totals. A core id of 8 or more is refused.
    pub fn step_core(&mut self, core_id: usize, memory: &mut VirtualMemory) -> (r: Result<(), String>)
        requires
            old(memory).wf(),
            core_id < NUM_CORES ==> counters_room(old(self)@.cores[core_id as int], STEP_ROOM as nat),
            core_id < NUM_CORES ==> blocks_bounded(old(self)@.cores[core_id as int].jit),
            core_id < NUM_CORES ==> old(self)@.total_instructions + old(self)@.cores[core_id as int].instructions_executed + STEP_ROOM <= u64::MAX,
            core_id < NUM_CORES ==> old(self)@.total_cycles + old(self)@.cores[core_id as int].cycles + STEP_ROOM <= u64::MAX,
        ensures
            final(memory).wf(),
            core_id >= NUM_CORES ==> final(self)@ == old(self)@ && final(memory)@ == old(memory)@
                && (r matches Err(e) && e@ == "Core ID inválido"@),
            core_id < NUM_CORES ==> ({
                let (p, m, res) = step_core_spec(old(self)@, old(memory)@, core_id as nat);
                &&& final(self)@ == p
                &&& final(memory)@ == m
                &&& outcome_reported(res, r)
            }),
            core_id < NUM_CORES ==> counters_within(
                old(self)@.cores[core_id as int],
                final(self)@.cores[core_id as int],
                STEP_ROOM as nat,
            ),
            core_id < NUM_CORES ==> blocks_bounded(final(self)@.cores[core_id as int].jit),
    {
        if core_id >= NUM_CORES {
            return Err(String::from_str("Core ID inválido"));
        }
        let ghost before = self@.cores;
        let stepped = self.cores[core_id].step(memory);
        proof {
            assert(self@.cores =~= before.update(core_id as int, self@.cores[core_id as int]));
        }
        if let Err(e) = stepped {
            return Err(e);
        }
        self.total_instructions = self.total_instructions + self.cores[core_id].instructions_executed;
        self.total_cycles = self.total_cycles + self.cores[core_id].cycles;
        Ok(())
    }

    /// Steps the cores one by one with `step_core`, in order, stopping at the
    /// first error, which is returned.
    pub fn step_each(&mut self, memory: &mut VirtualMemory) -> (r: Result<(), String>)
        requires
            old(memory).wf(),
            run_room(old(self)@, 1),
        ensures
            final(memory).wf(),
            ({
                let (p, m, res) = step_each_spec(old(self)@, old(memory)@, 0);
                &&& final(self)@ == p
                &&& final(memory)@ == m
                &&& outcome_reported(res, r)
            }),
    {
        let ghost p0 = self@;
        proof {
            lemma_sums_nonneg(p0.cores);
        }
        let mut i: usize = 0;
        while i < NUM_CORES
            invariant
                i <= NUM_CORES,
                memory.wf(),
                p0 == old(self)@,
                run_room(p0, 1),
                self@.cores.len() == NUM_CORES,
                step_each_spec(self@, memory@, i as nat) == step_each_spec(p0, old(memory)@, 0),
                forall|j: int| i <= j < NUM_CORES ==> #[trigger] self@.cores[j] == p0.cores[j],
                forall|j: int| 0 <= j < i ==> counters_within(p0.cores[j], #[trigger] self@.cores[j], STEP_ROOM as nat),
                forall|j: int| 0 <= j < i ==> blocks_bounded((#[trigger] self@.cores[j]).jit),
                self.total_instructions <= p0.total_instructions + instructions_sum(self@.cores.take(i as int)),
                self.total_cycles <= p0.total_cycles + cycles_sum(self@.cores.take(i as int)),
            decreases NUM_CORES - i,
        {
            let ghost before = self@;
            proof {
                let a = p0.cores.take(i as int);
                let b = before.cores.take(i as int);
                assert forall|j: int| 0 <= j < a.len() implies counters_within(#[trigger] a[j], b[j], STEP_ROOM as nat) by {
                    assert(a[j] == p0.cores[j]);
                    assert(b[j] == before.cores[j]);
                }
                lemma_sums_within(a, b, STEP_ROOM as nat);
                lemma_sums_prefix(p0.cores, i as int);
                lemma_sums_prefix(p0.cores, i as int + 1);
                assert(p0.cores.take(i as int + 1).drop_last() =~= a);
                assert(counters_room(p0.cores[i as int], STEP_ROOM as nat));
            }
            let stepped = self.step_core(i, memory);
            proof {
                let c = self@.cores[i as int];
                assert(self@.cores.take(i as int + 1).drop_last() =~= self@.cores.take(i as int));
                assert(self@.cores.take(i as int) =~= before.cores.take(i as int));
            }
            if let Err(e) = stepped {
                return Err(e);
            }
            i = i + 1;
        }
        Ok(())
    }

    /// Whether every core is halted.
    fn all_cores_halted(&self) -> (b: bool)
        ensures
            b == all_halted(self@.cores),
    {
        let mut i: usize = 0;
        while i < NUM_CORES
            invariant
                i <= NUM_CORES,
                forall|j: int| 0 <= j < i ==> (#[trigger] self@.cores[j]).status == CoreStatus::Halted,
            decreases NUM_CORES - i,
        {
            match self.cores[i].status {
                CoreStatus::Halted => {},
                _ => {
                    assert(self@.cores[i as int].status != CoreStatus::Halted);
                    return false;
                },
            }
            i = i + 1;
        }
        true
    }

    /// Steps every core up to `max_instructions` times, stopping early once a
    /// step leaves every core halted.
    pub fn run(&mut self, memory: &mut VirtualMemory, max_instructions: u64) -> (r: Result<(), String>)
        requires
            old(memory).wf(),
            run_room(old(self)@, max_instructions as nat),
        ensures
            final(memory).wf(),
            r is Ok,
            (final(self)@, final(memory)@) == run_spec(old(self)@, old(memory)@, max_instructions as nat),
    {
        let mut executed: u64 = 0;
        while executed < max_instructions
            invariant
                executed <= max_instructions,
                memory.wf(),
                run_room(self@, (max_instructions - executed) as nat),
                run_spec(self@, memory@, (max_instructions - executed) as nat)
                    == run_spec(old(self)@, old(memory)@, max_instructions as nat),
            decreases max_instructions - executed,
        {
            let ghost p0 = self@;
            let ghost k: int = max_instructions - executed;
            proof {
                lemma_sums_nonneg(p0.cores);
                lemma_room_arith(p0.total_instructions as int, instructions_sum(p0.cores), instructions_sum(p0.cores) + 512, k);
                lemma_room_arith(p0.total_cycles as int, cycles_sum(p0.cores), cycles_sum(p0.cores) + 512, k);
                assert forall|i: int| 0 <= i < p0.cores.len() implies counters_room(#[trigger] p0.cores[i], STEP_ROOM as nat) by {
                    assert(counters_room(p0.cores[i], (64 * k) as nat));
                }
            }
            let ghost mem0 = memory@;
            self.step_all(memory)?;
            proof {
                let p1 = self@;
                lemma_sums_within(p0.cores, p1.cores, STEP_ROOM as nat);
                assert(p0.cores.len() == NUM_CORES);
                assert(instructions_sum(p1.cores) <= instructions_sum(p0.cores) + 512);
                assert(cycles_sum(p1.cores) <= cycles_sum(p0.cores) + 512);
                assert(step_all_spec(p0, mem0).0 == p1);
                assert(p1.cores == step_cores(p0.cores, mem0, 0).0);
                lemma_sums_nonneg(p1.cores);
                assert(p0.total_instructions + instructions_sum(p1.cores) <= u64::MAX);
                assert(p0.total_cycles + cycles_sum(p1.cores) <= u64::MAX);
                lemma_room_arith(p0.total_instructions as int, instructions_sum(p0.cores), instructions_sum(p1.cores), k);
                lemma_room_arith(p0.total_cycles as int, cycles_sum(p0.cores), cycles_sum(p1.cores), k);
                assert forall|i: int| 0 <= i < p1.cores.len() implies counters_room(#[trigger] p1.cores[i], (64 * (k - 1)) as nat)
                    && blocks_bounded(p1.cores[i].jit) by {
                    assert(counters_room(p0.cores[i], (64 * k) as nat));
                    assert(counters_within(p0.cores[i], p1.cores[i], STEP_ROOM as nat));
                }
                assert(p1.cores.len() == NUM_CORES);
                assert(cores_ready(p1.cores, (64 * (k - 1)) as nat));
                assert(p1.total_instructions == p0.total_instructions + instructions_sum(p1.cores));
                assert(p1.total_cycles == p0.total_cycles + cycles_sum(p1.cores));
            }
            if self.all_cores_halted() {
                return Ok(());
            }
            executed = executed + 1;
        }
        Ok(())
    }

    /// Puts every core back in its initial state and the totals at zero.
    pub fn reset_all(&mut self)
        ensures
            final(self)@.cores == old(self)@.cores.map_values(|c: CoreView| reset_core(c)),
            final(self)@.total_instructions == 0,
            final(self)@.total_cycles == 0,
    {
        let ghost cores0 = self@.cores;
        let mut i: usize = 0;
        while i < NUM_CORES
            invariant
                i <= NUM_CORES,
                cores0 == old(self)@.cores,
                self@.cores.len() == NUM_CORES,
                forall|j: int| 0 <= j < i ==> #[trigger] self@.cores[j] == reset_core(cores0[j]),
                forall|j: int| i <= j < NUM_CORES ==> #[trigger] self@.cores[j] == cores0[j],
            decreases NUM_CORES - i,
        {
            let ghost before = self@.cores;
            self.cores[i].reset();
            proof {
                assert(self@.cores =~= before.update(i as int, reset_core(before[i as int])));
            }
            i = i + 1;
        }
        self.total_instructions = 0;
        self.total_cycles = 0;
        proof {
            assert(self@.cores =~= cores0.map_values(|c: CoreView| reset_core(c)));
        }
    }
}

} // verus!
