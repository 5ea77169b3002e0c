use ps5_emulator::memory::{VirtualMemory, PAGE_SIZE};

const GIB2: u64 = 2 * 1024 * 1024 * 1024;

#[test]
fn fresh_memory_reads_zero_and_allocates() {
    let mut m = VirtualMemory::new(2 * 1024 * 1024 * 1024);
    assert_eq!(m.allocated_pages(), 0);
    assert_eq!(m.read8(0x1234).unwrap(), 0);
    assert_eq!(m.allocated_pages(), 1);
    assert_eq!(m.allocated_bytes(), PAGE_SIZE);
}

#[test]
fn read_after_write_gives_the_byte() {
    let mut m = VirtualMemory::new(2 * 1024 * 1024 * 1024);
    m.write8(0xABCD, 0x5A).unwrap();
    assert_eq!(m.read8(0xABCD).unwrap(), 0x5A);
    assert_eq!(m.read8(0xABCE).unwrap(), 0);
}

#[test]
fn writes_to_other_addresses_keep_bytes() {
    let mut m = VirtualMemory::new(2 * 1024 * 1024 * 1024);
    m.write8(10, 1).unwrap();
    m.write8(PAGE_SIZE + 10, 2).unwrap();
    assert_eq!(m.read8(10).unwrap(), 1);
    assert_eq!(m.read8(PAGE_SIZE + 10).unwrap(), 2);
    assert_eq!(m.allocated_pages(), 2);
    assert_eq!(m.allocated_bytes(), 2 * 4096);
}

#[test]
fn out_of_range_is_refused() {
    let mut m = VirtualMemory::new(GIB2);
    assert_eq!(m.virtual_size(), 2147483648);
    assert_eq!(m.write8(GIB2, 1).unwrap_err(), "Endereço fora da RAM virtual: 0x80000000");
    assert_eq!(m.read8(GIB2 + 0xFF).unwrap_err(), "Endereço fora da RAM virtual: 0x800000FF");
    assert_eq!(m.allocated_pages(), 0);
    m.write8(GIB2 - 1, 9).unwrap();
    assert_eq!(m.read8(GIB2 - 1).unwrap(), 9);
}

#[test]
fn new_memory_has_its_size_and_no_pages() {
    let m = VirtualMemory::new(2 * 1024 * 1024 * 1024);
    assert_eq!(m.virtual_size(), 2 * 1024 * 1024 * 1024);
    assert_eq!(m.allocated_pages(), 0);
    assert_eq!(m.allocated_bytes(), 0);
    let mut small = VirtualMemory::new(5000);
    assert_eq!(small.virtual_size(), 5000);
    small.write8(4999, 3).unwrap();
    assert_eq!(small.read8(4999).unwrap(), 3);
    assert_eq!(small.write8(5000, 3).unwrap_err(), "Endereço fora da RAM virtual: 0x1388");
    assert_eq!(small.allocated_pages(), 1);
}

#[test]
fn wide_reads_and_writes_are_little_endian() {
    let mut m = VirtualMemory::new(2 * 1024 * 1024 * 1024);
    m.write64(0x100, 0x0102_0304_0506_0708).unwrap();
    assert_eq!(m.read8(0x100).unwrap(), 0x08);
    assert_eq!(m.read8(0x107).unwrap(), 0x01);
    assert_eq!(m.read32(0x100).unwrap(), 0x0506_0708);
    assert_eq!(m.read64(0x100).unwrap(), 0x0102_0304_0506_0708);
}

#[test]
fn wide_write_across_a_page_boundary() {
    let mut m = VirtualMemory::new(2 * 1024 * 1024 * 1024);
    m.write64(PAGE_SIZE - 4, u64::MAX).unwrap();
    assert_eq!(m.read64(PAGE_SIZE - 4).unwrap(), u64::MAX);
    assert_eq!(m.allocated_pages(), 2);
}

#[test]
fn duplicate_copies_pages() {
    let mut m = VirtualMemory::new(2 * 1024 * 1024 * 1024);
    m.write8(77, 7).unwrap();
    let mut c = m.duplicate();
    assert_eq!(c.read8(77).unwrap(), 7);
    c.write8(77, 8).unwrap();
    assert_eq!(m.read8(77).unwrap(), 7);
}
