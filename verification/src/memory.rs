//! Paged virtual memory: a sparse byte-addressed RAM whose pages are
//! allocated on first touch and read as zero until written.
use crate::text::{hex, hex_string};
use std::collections::HashMap;
use vstd::prelude::*;
use vstd::string::StringExecFns;

verus! {

broadcast use vstd::std_specs::hash::group_hash_axioms;

/// Size of one page in bytes (4 KiB).
pub const PAGE_SIZE: u64 = 4096;

/// The memory as seen by the specifications: its size in bytes and its
/// allocated pages, by page number.
#[verifier::ext_equal]
pub ghost struct MemView {
    pub size: u64,
    pub pages: Map<u64, Seq<u8>>,
}

/// Number of pages that a RAM of `size` bytes spans (the last one maybe in part).
pub open spec fn num_pages(size: u64) -> nat {
    ((size as int + 4095) / 4096) as nat
}

/// The page that holds `address`.
pub open spec fn page_of(address: u64) -> u64 {
    (address / PAGE_SIZE) as u64
}

/// The offset of `address` inside its page.
pub open spec fn offset_of(address: u64) -> int {
    (address % PAGE_SIZE) as int
}

/// A freshly allocated page: all zeros.
pub open spec fn zero_page() -> Seq<u8> {
    Seq::new(PAGE_SIZE as nat, |i: int| 0u8)
}

/// The memory after `page` has been touched: allocated as zeros if absent.
pub open spec fn touch(m: MemView, page: u64) -> MemView {
    if m.pages.contains_key(page) {
        m
    } else {
        MemView { pages: m.pages.insert(page, zero_page()), ..m }
    }
}

/// The memory after the byte `value` has been stored at `address`.
pub open spec fn store(m: MemView, address: u64, value: u8) -> MemView {
    let p = page_of(address);
    let t = touch(m, p);
    MemView { pages: t.pages.insert(p, t.pages[p].update(offset_of(address), value)), ..t }
}

/// The byte that the memory holds at `address` (zero where no page is allocated).
pub open spec fn byte_at(m: MemView, address: u64) -> u8 {
    let p = page_of(address);
    if m.pages.contains_key(p) {
        m.pages[p][offset_of(address)]
    } else {
        0u8
    }
}

/// Text of the error returned for an access at `address` outside the virtual
/// RAM: `"Endereço fora da RAM virtual: 0x"` and the address in upper-case
/// hexadecimal.
pub open spec fn out_of_range_text(address: u64) -> Seq<char> {
    "Endereço fora da RAM virtual: 0x"@ + hex(address as nat)
}

/// Writes the out-of-range error for `address`.
fn out_of_range_message(address: u64) -> (s: String)
    ensures
        s@ == out_of_range_text(address),
{
    let mut s = String::from_str("Endereço fora da RAM virtual: 0x");
    let h = hex_string(address);
    s.append(h.as_str());
    s
}

/// Sparse virtual RAM of a given size in bytes, split in pages of `PAGE_SIZE` bytes.
#[derive(Clone, Debug)]
pub struct VirtualMemory {
    size: u64,
    pages: HashMap<u64, Vec<u8>>,
}

impl View for VirtualMemory {
    type V = MemView;

    /// The size and the allocated pages, by page number.
    closed spec fn view(&self) -> MemView {
        MemView { size: self.size, pages: self.pages@.map_values(|v: Vec<u8>| v@) }
    }
}

/// A finite set of numbers below `n` has at most `n` elements.
proof fn lemma_bounded_set_len(s: Set<u64>, n: nat)
    requires
        s.finite(),
        forall|x: u64| s.contains(x) ==> x < n,
    ensures
        s.len() <= n,
    decreases n,
{
    if n == 0 {
        if s.len() > 0 {
            let x = s.choose();
            assert(s.contains(x));
        }
    } else {
        let m = (n - 1) as nat;
        let t = s.remove(m as u64);
        if m <= u64::MAX {
            lemma_bounded_set_len(t, m);
        } else {
            assert forall|x: u64| t.contains(x) implies x < m by {}
            lemma_bounded_set_len(t, m);
        }
    }
}

/// An address inside a RAM of `size` bytes lies in one of its pages.
proof fn lemma_page_in_range(address: u64, size: u64)
    requires
        address < size,
    ensures
        page_of(address) < num_pages(size),
{
    let a = address as int;
    let n = size as int;
    assert(a / 4096 < (n + 4095) / 4096) by (nonlinear_arith)
        requires
            0 <= a < n,
    ;
}

impl VirtualMemory {
    /// The representation holds only full pages inside the virtual RAM.
    pub closed spec fn wf(&self) -> bool {
        forall|p: u64| #[trigger]
            self.pages@.contains_key(p) ==> p < num_pages(self.size) && self.pages@[p]@.len() == PAGE_SIZE
    }

    /// A copy of this memory, page for page.
    pub fn duplicate(&self) -> (r: Self)
        ensures
            r@ == self@,
            r.wf() == self.wf(),
    {
        let pages = self.pages.clone();
        assert(pages@ == self.pages@);
        VirtualMemory { size: self.size, pages }
    }

    /// An empty virtual RAM of `size` bytes: no page allocated.
    pub fn new(size: u64) -> (m: Self)
        ensures
            m.wf(),
            m@ == (MemView { size, pages: Map::empty() }),
    {
        let m = VirtualMemory { size, pages: HashMap::new() };
        proof {
            assert(m@.pages =~= Map::<u64, Seq<u8>>::empty());
        }
        m
    }

    fn check_address(&self, address: u64) -> (r: Result<(), String>)
        requires
            self.wf(),
        ensures
            r matches Ok(_) <==> address < self@.size,
            r matches Err(e) ==> e@ == out_of_range_text(address),
    {
        if address >= self.size {
            return Err(out_of_range_message(address));
        }
        Ok(())
    }

    fn page_number(address: u64) -> (p: u64)
        ensures
            p == page_of(address),
    {
        address / PAGE_SIZE
    }

    fn page_offset(address: u64) -> (o: usize)
        ensures
            o == offset_of(address),
    {
        (address % PAGE_SIZE) as usize
    }

    /// Allocates `page` as zeros if it is not allocated yet.
    fn get_page_mut(&mut self, page: u64)
        requires
            old(self).wf(),
            page < num_pages(old(self)@.size),
        ensures
            final(self).wf(),
            final(self)@ == touch(old(self)@, page),
    {
        if !self.pages.contains_key(&page) {
            let mut fresh: Vec<u8> = Vec::new();
            let mut i: u64 = 0;
            while i < PAGE_SIZE
                invariant
                    i <= PAGE_SIZE,
                    fresh@.len() == i,
                    forall|j: int| 0 <= j < i ==> fresh@[j] == 0u8,
                decreases PAGE_SIZE - i,
            {
                fresh.push(0u8);
                i = i + 1;
            }
            proof {
                assert(fresh@ =~= zero_page());
            }
            self.pages.insert(page, fresh);
            proof {
                assert(self@.pages =~= touch(old(self)@, page).pages);
            }
        }
    }

    /// Stores `value` at `address`; refuses an address outside the virtual RAM.
    pub fn write8(&mut self, address: u64, value: u8) -> (r: Result<(), String>)
        requires
            old(self).wf(),
        ensures
            final(self).wf(),
            r is Ok <==> address < old(self)@.size,
            r is Ok ==> final(self)@ == store(old(self)@, address, value),
            r matches Err(e) ==> e@ == out_of_range_text(address) && final(self)@ == old(self)@,
    {
        self.check_address(address)?;
        let page = Self::page_number(address);
        let offset = Self::page_offset(address);
        proof {
            lemma_page_in_range(address, self.size);
        }
        self.get_page_mut(page);
        let ghost touched = self@;
        proof {
            assert(self@.pages.contains_key(page));
            assert(self.pages@.dom() =~= self@.pages.dom());
        }
        let mut contents = self.pages.remove(&page).unwrap();
        assert(contents@ == touched.pages[page]);
        contents.set(offset, value);
        self.pages.insert(page, contents);
        proof {
            assert(self@.pages =~= store(old(self)@, address, value).pages);
        }
        Ok(())
    }

    /// Reads the byte at `address` (allocating its page); refuses an address outside
    /// the virtual RAM.
    pub fn read8(&mut self, address: u64) -> (r: Result<u8, String>)
        requires
            old(self).wf(),
        ensures
            final(self).wf(),
            r is Ok <==> address < old(self)@.size,
            r matches Ok(b) ==> b == byte_at(old(self)@, address) && final(self)@ == touch(
                old(self)@,
                page_of(address),
            ),
            r matches Err(e) ==> e@ == out_of_range_text(address) && final(self)@ == old(self)@,
    {
        self.check_address(address)?;
        let page = Self::page_number(address);
        let offset = Self::page_offset(address);
        proof {
            lemma_page_in_range(address, self.size);
        }
        self.get_page_mut(page);
        proof {
            assert(self@.pages.contains_key(page));
            assert(self.pages@.dom() =~= self@.pages.dom());
        }
        let contents = self.pages.get(&page).unwrap();
        proof {
            assert(contents@ == self@.pages[page]);
            assert(offset < PAGE_SIZE);
            if !old(self)@.pages.contains_key(page) {
                assert(zero_page()[offset as int] == 0u8);
            }
        }
        Ok(contents[offset])
    }

    /// Number of allocated pages.
    pub fn allocated_pages(&self) -> (n: usize)
        requires
            self.wf(),
        ensures
            n == self@.pages.dom().len(),
    {
        proof {
            assert(self.pages@.dom() =~= self@.pages.dom());
        }
        self.pages.len()
    }

    /// Number of allocated bytes (allocated pages times the page size).
    pub fn allocated_bytes(&self) -> (n: u64)
        requires
            self.wf(),
            self@.pages.dom().len() * PAGE_SIZE <= u64::MAX,
        ensures
            n == self@.pages.dom().len() * PAGE_SIZE,
    {
        proof {
            lemma_bounded_set_len(self.pages@.dom(), num_pages(self.size));
            assert(self@.pages.dom() =~= self.pages@.dom());
        }
        self.pages.len() as u64 * PAGE_SIZE
    }

    /// Size of the virtual RAM in bytes.
    pub fn virtual_size(&self) -> (n: u64)
        requires
            self.wf(),
        ensures
            n == self@.size,
    {
        self.size
    }
}


/// Little-endian value of `bytes`.
pub open spec fn le_value(bytes: Seq<u8>) -> nat
    decreases bytes.len(),
{
    if bytes.len() == 0 {
        0
    } else {
        (bytes[0] + 256 * le_value(bytes.drop_first())) as nat
    }
}

/// Reading `n` bytes one by one from `address`: the bytes read, the pages after
/// the reads, and the first address that lay outside the virtual RAM, if any
/// (reading stops there).
pub open spec fn read_bytes(m: MemView, address: int, n: nat) -> (Seq<u8>, MemView, Option<int>)
    decreases n,
{
    if n == 0 {
        (Seq::empty(), m, None)
    } else {
        let (bs, m1, failed) = read_bytes(m, address, (n - 1) as nat);
        let a = address + n - 1;
        if failed is Some {
            (bs, m1, failed)
        } else if a >= m.size {
            (bs, m1, Some(a))
        } else {
            (bs.push(byte_at(m1, a as u64)), touch(m1, page_of(a as u64)), None)
        }
    }
}

/// Writing `bytes` one by one from `address`: the pages after the writes, and the
/// first address that lay outside the virtual RAM, if any (writing stops there).
pub open spec fn write_bytes(m: MemView, address: int, bytes: Seq<u8>) -> (MemView, Option<int>)
    decreases bytes.len(),
{
    if bytes.len() == 0 {
        (m, None)
    } else {
        let (m1, failed) = write_bytes(m, address, bytes.drop_last());
        let a = address + bytes.len() - 1;
        if failed is Some {
            (m1, failed)
        } else if a >= m.size {
            (m1, Some(a))
        } else {
            (store(m1, a as u64, bytes.last()), None)
        }
    }
}

/// The `n` little-endian bytes of `value`.
pub open spec fn le_bytes(value: nat, n: nat) -> Seq<u8>
    decreases n,
{
    if n == 0 {
        Seq::empty()
    } else {
        seq![(value % 256) as u8] + le_bytes(value / 256, (n - 1) as nat)
    }
}

/// `le_bytes(value, n)` has `n` bytes.
pub proof fn lemma_le_bytes_len(value: nat, n: nat)
    ensures
        le_bytes(value, n).len() == n,
    decreases n,
{
    if n > 0 {
        lemma_le_bytes_len(value / 256, (n - 1) as nat);
    }
}

/// Every allocated page holds `PAGE_SIZE` bytes.
pub open spec fn pages_ok(m: MemView) -> bool {
    forall|p: u64| #[trigger] m.pages.contains_key(p) ==> m.pages[p].len() == PAGE_SIZE
}

/// `256` to the power `n`.
pub open spec fn pow256(n: nat) -> nat
    decreases n,
{
    if n == 0 {
        1
    } else {
        256 * pow256((n - 1) as nat)
    }
}

/// The little-endian bytes of a value below `256^n` read back as the value.
pub proof fn lemma_le_roundtrip(value: nat, n: nat)
    requires
        value < pow256(n),
    ensures
        le_bytes(value, n).len() == n,
        le_value(le_bytes(value, n)) == value,
    decreases n,
{
    lemma_le_bytes_len(value, n);
    if n > 0 {
        let q = value / 256;
        let p = pow256((n - 1) as nat);
        assert(q < p) by (nonlinear_arith)
            requires
                value < 256 * p,
                q == value / 256,
        ;
        lemma_le_roundtrip(q, (n - 1) as nat);
        assert(le_bytes(value, n).drop_first() =~= le_bytes(q, (n - 1) as nat));
        assert(value == value % 256 + 256 * q);
    }
}

/// Storing a byte keeps the pages whole, keeps the size, gives the stored byte
/// back and leaves every other address as it was.
pub proof fn lemma_store_bytes(m: MemView, a: u64, v: u8, b: u64)
    requires
        pages_ok(m),
    ensures
        pages_ok(store(m, a, v)),
        store(m, a, v).size == m.size,
        byte_at(store(m, a, v), a) == v,
        b != a ==> byte_at(store(m, a, v), b) == byte_at(m, b),
{
    let t = touch(m, page_of(a));
    assert(t.pages.contains_key(page_of(a)));
    assert(t.pages[page_of(a)].len() == PAGE_SIZE);
    if page_of(a) == page_of(b) && b != a {
        assert(offset_of(a) != offset_of(b));
    }
}

/// After a write of `bytes` at `address` that succeeded, the pages are whole,
/// the size is kept, every written address lies inside the memory, and it holds
/// its byte.
pub proof fn lemma_write_bytes_content(m: MemView, address: int, bytes: Seq<u8>)
    requires
        pages_ok(m),
        address >= 0,
        write_bytes(m, address, bytes).1 is None,
    ensures
        pages_ok(write_bytes(m, address, bytes).0),
        write_bytes(m, address, bytes).0.size == m.size,
        bytes.len() > 0 ==> address + bytes.len() <= m.size,
        forall|i: int| 0 <= i < bytes.len() ==> byte_at(write_bytes(m, address, bytes).0, (address + i) as u64) == bytes[i],
    decreases bytes.len(),
{
    if bytes.len() > 0 {
        let prev = bytes.drop_last();
        lemma_write_bytes_content(m, address, prev);
        let m1 = write_bytes(m, address, prev).0;
        let a = (address + bytes.len() - 1) as u64;
        lemma_store_bytes(m1, a, bytes.last(), a);
        assert forall|i: int| 0 <= i < bytes.len() implies byte_at(write_bytes(m, address, bytes).0, (address + i) as u64) == bytes[i] by {
            if i < bytes.len() - 1 {
                lemma_store_bytes(m1, a, bytes.last(), (address + i) as u64);
                assert(prev[i] == bytes[i]);
            }
        }
    }
}

/// Reading `n` bytes inside the memory succeeds, reads the bytes held there,
/// keeps the pages whole and changes no byte.
pub proof fn lemma_read_bytes_content(m: MemView, address: int, n: nat)
    requires
        pages_ok(m),
        address >= 0,
        address + n <= m.size,
    ensures
        read_bytes(m, address, n).2 is None,
        read_bytes(m, address, n).0.len() == n,
        read_bytes(m, address, n).1.size == m.size,
        pages_ok(read_bytes(m, address, n).1),
        forall|x: u64| byte_at(#[trigger] read_bytes(m, address, n).1, x) == byte_at(m, x),
        forall|i: int| 0 <= i < n ==> read_bytes(m, address, n).0[i] == byte_at(m, (address + i) as u64),
    decreases n,
{
    if n > 0 {
        lemma_read_bytes_content(m, address, (n - 1) as nat);
        let m1 = read_bytes(m, address, (n - 1) as nat).1;
        let a = (address + n - 1) as u64;
        assert forall|x: u64| byte_at(touch(m1, page_of(a)), x) == byte_at(m1, x) by {}
    }
}

/// Reading keeps the pages whole and the size.
pub proof fn lemma_read_bytes_keeps(m: MemView, address: int, n: nat)
    requires
        pages_ok(m),
    ensures
        pages_ok(read_bytes(m, address, n).1),
        read_bytes(m, address, n).1.size == m.size,
    decreases n,
{
    if n > 0 {
        lemma_read_bytes_keeps(m, address, (n - 1) as nat);
    }
}

/// Once a read of `j` bytes has failed, reading more bytes fails the same way.
proof fn lemma_read_bytes_stops(m: MemView, address: int, j: nat, n: nat)
    requires
        j <= n,
        read_bytes(m, address, j).2 is Some,
    ensures
        read_bytes(m, address, n) == read_bytes(m, address, j),
    decreases n - j,
{
    if j < n {
        lemma_read_bytes_stops(m, address, j, (n - 1) as nat);
    }
}

/// Once a write of `j` bytes has failed, writing more bytes fails the same way.
pub proof fn lemma_write_bytes_stops(m: MemView, address: int, bytes: Seq<u8>, j: nat)
    requires
        j <= bytes.len(),
        write_bytes(m, address, bytes.take(j as int)).1 is Some,
    ensures
        write_bytes(m, address, bytes) == write_bytes(m, address, bytes.take(j as int)),
    decreases bytes.len() - j,
{
    if j < bytes.len() {
        let shorter = bytes.drop_last();
        assert(shorter.take(j as int) =~= bytes.take(j as int));
        lemma_write_bytes_stops(m, address, shorter, j);
    } else {
        assert(bytes.take(j as int) =~= bytes);
    }
}

impl VirtualMemory {
    /// Reads `n` bytes one by one from `address`, stopping at the first failure.
    fn read_n(&mut self, address: u64, n: u64) -> (r: Result<Vec<u8>, String>)
        requires
            old(self).wf(),
            n <= 8,
        ensures
            final(self).wf(),
            ({
                let (bs, m, failed) = read_bytes(old(self)@, address as int, n as nat);
                &&& final(self)@ == m
                &&& match failed {
                    None => r matches Ok(v) && v@ == bs,
                    Some(a) => r matches Err(e) && e@ == out_of_range_text(a as u64),
                }
            }),
            r matches Ok(v) ==> v@.len() == n,
    {
        let mut bytes: Vec<u8> = Vec::new();
        let mut k: u64 = 0;
        while k < n
            invariant
                self.wf(),
                k <= n <= 8,
                read_bytes(old(self)@, address as int, k as nat) == (bytes@, self@, None::<int>),
                bytes@.len() == k,
                k > 0 ==> address < old(self)@.size,
                self@.size == old(self)@.size,
            decreases n - k,
        {
            let ghost before = self@;
            let b = match self.read8(address + k) {
                Ok(b) => b,
                Err(e) => {
                    proof {
                        assert(self@ == before);
                        lemma_read_bytes_stops(old(self)@, address as int, (k + 1) as nat, n as nat);
                    }
                    return Err(e);
                },
            };
            bytes.push(b);
            k = k + 1;
        }
        Ok(bytes)
    }

    /// Reads the little-endian 32-bit value at `address`, byte by byte (allocating
    /// the pages touched); refuses at the first byte outside the virtual RAM.
    pub fn read32(&mut self, address: u64) -> (r: Result<u32, String>)
        requires
            old(self).wf(),
        ensures
            final(self).wf(),
            ({
                let (bs, m, failed) = read_bytes(old(self)@, address as int, 4);
                &&& final(self)@ == m
                &&& match failed {
                    None => r matches Ok(v) && v == le_value(bs),
                    Some(a) => r matches Err(e) && e@ == out_of_range_text(a as u64),
                }
            }),
    {
        let bytes = self.read_n(address, 4)?;
        proof {
            reveal_with_fuel(le_value, 5);
        }
        Ok(bytes[0] as u32 + 256 * (bytes[1] as u32 + 256 * (bytes[2] as u32 + 256 * bytes[3] as u32)))
    }

    /// Reads the little-endian 64-bit value at `address`, byte by byte (allocating
    /// the pages touched); refuses at the first byte outside the virtual RAM.
    pub fn read64(&mut self, address: u64) -> (r: Result<u64, String>)
        requires
            old(self).wf(),
        ensures
            final(self).wf(),
            ({
                let (bs, m, failed) = read_bytes(old(self)@, address as int, 8);
                &&& final(self)@ == m
                &&& match failed {
                    None => r matches Ok(v) && v == le_value(bs),
                    Some(a) => r matches Err(e) && e@ == out_of_range_text(a as u64),
                }
            }),
    {
        let bytes = self.read_n(address, 8)?;
        proof {
            reveal_with_fuel(le_value, 9);
        }
        let b0 = bytes[0] as u64;
        let b1 = bytes[1] as u64;
        let b2 = bytes[2] as u64;
        let b3 = bytes[3] as u64;
        let b4 = bytes[4] as u64;
        let b5 = bytes[5] as u64;
        let b6 = bytes[6] as u64;
        let b7 = bytes[7] as u64;
        Ok(b0 + 256 * (b1 + 256 * (b2 + 256 * (b3 + 256 * (b4 + 256 * (b5 + 256 * (b6 + 256 * b7)))))))
    }

    /// Writes `value` at `address` as 8 little-endian bytes, byte by byte; refuses
    /// at the first byte outside the virtual RAM (earlier bytes stay written).
    pub fn write64(&mut self, address: u64, value: u64) -> (r: Result<(), String>)
        requires
            old(self).wf(),
        ensures
            final(self).wf(),
            ({
                let (m, failed) = write_bytes(old(self)@, address as int, le_bytes(value as nat, 8));
                &&& final(self)@ == m
                &&& match failed {
                    None => r is Ok,
                    Some(a) => r matches Err(e) && e@ == out_of_range_text(a as u64),
                }
            }),
    {
        let ghost bytes = le_bytes(value as nat, 8);
        proof {
            lemma_le_bytes_len(value as nat, 8);
        }
        let mut rest = value;
        let mut k: u64 = 0;
        proof {
            assert(bytes.take(0) =~= Seq::<u8>::empty());
        }
        while k < 8
            invariant
                self.wf(),
                k <= 8,
                bytes == le_bytes(value as nat, 8),
                bytes.len() == 8,
                le_bytes(rest as nat, (8 - k) as nat) == bytes.skip(k as int),
                write_bytes(old(self)@, address as int, bytes.take(k as int)) == (self@, None::<int>),
                k > 0 ==> address < old(self)@.size,
                self@.size == old(self)@.size,
            decreases 8 - k,
        {
            proof {
                assert(bytes.take(k + 1).drop_last() =~= bytes.take(k as int));
                lemma_le_bytes_len(rest as nat, (8 - k) as nat);
                assert(bytes.skip(k as int)[0] == (rest % 256) as u8);
                assert(bytes.skip(k + 1) =~= bytes.skip(k as int).drop_first());
                assert(le_bytes(rest as nat, (8 - k) as nat).drop_first() =~= le_bytes((rest / 256) as nat, (8 - k - 1) as nat));
            }
            match self.write8(address + k, (rest % 256) as u8) {
                Ok(()) => {},
                Err(e) => {
                    proof {
                        lemma_write_bytes_stops(old(self)@, address as int, bytes, (k + 1) as nat);
                    }
                    return Err(e);
                },
            }
            rest = rest / 256;
            k = k + 1;
        }
        proof {
            assert(bytes.take(8) =~= bytes);
        }
        Ok(())
    }
}

/// A read gives back what a write stored: right after `write8(a, v)`
/// succeeds, the byte at `a` is `v`.
pub proof fn law_read_after_write(m: VirtualMemory, address: u64, value: u8)
    requires
        m.wf(),
        address < m@.size,
    ensures
        byte_at(store(m@, address, value), address) == value,
{
    lemma_page_in_range(address, m@.size);
    assert(m@.pages.contains_key(page_of(address)) ==> m@.pages[page_of(address)].len() == PAGE_SIZE);
}

/// A write changes no other byte: after `write8(a, v)` every address `b != a`
/// reads as before.
pub proof fn law_write_keeps_other_bytes(m: VirtualMemory, a: u64, b: u64, value: u8)
    requires
        m.wf(),
        a < m@.size,
        a != b,
    ensures
        byte_at(store(m@, a, value), b) == byte_at(m@, b),
{
    lemma_page_in_range(a, m@.size);
    assert(m@.pages.contains_key(page_of(a)) ==> m@.pages[page_of(a)].len() == PAGE_SIZE);
    if page_of(a) == page_of(b) {
        assert(offset_of(a) != offset_of(b));
    }
}

/// Reading changes no byte: allocating the page of a read leaves every address
/// reading as before (fresh pages read as zero).
pub proof fn law_read_keeps_bytes(m: VirtualMemory, page: u64, b: u64)
    requires
        m.wf(),
    ensures
        byte_at(touch(m@, page), b) == byte_at(m@, b),
{
}

/// Every byte of a fresh memory reads as zero.
pub proof fn law_fresh_memory_is_zero(size: u64, address: u64)
    ensures
        byte_at(MemView { size, pages: Map::empty() }, address) == 0,
{
}

} // verus!
