//! A fixed stretch of stable memory, counted in pages of 64 KiB.

use vstd::prelude::*;

verus! {

/// The bytes in one page of stable memory.
pub const WASM_PAGE_SIZE_IN_BYTES: u64 = 65536;

/// The number of pages that the stable memory is taken to have.
pub const STABLE_PAGES: u64 = 536870912;

/// Why stable memory could not be had or read.
#[derive(Clone, Copy, Debug, PartialEq, Eq, Structural)]
pub enum StableMemoryError {
    /// No more stable memory could be allocated.
    OutOfMemory,
    /// Attempted to read more stable memory than had been allocated.
    OutOfBounds,
}

impl StableMemoryError {
    /// The error in words.
    pub fn to_string(&self) -> (r: String)
        ensures
            r@ == match self {
                StableMemoryError::OutOfMemory => "Out of memory"@,
                StableMemoryError::OutOfBounds => "Read exceeds allocated memory"@,
            },
    {
        match self {
            StableMemoryError::OutOfMemory => "Out of memory".to_string(),
            StableMemoryError::OutOfBounds => "Read exceeds allocated memory".to_string(),
        }
    }
}

/// Stable memory as its host offers it, addressed with 64 bits.
pub trait StableMemory {
    /// The size of the memory, in pages.
    fn stable64_size(&self) -> u64;

    /// Grows the memory by `new_pages` pages and returns the size before.
    fn stable64_grow(&self, new_pages: u64) -> Result<u64, StableMemoryError>;

    /// Writes `buf` at `offset`.
    fn stable64_write(&self, offset: u64, buf: &[u8]);

    /// Fills `buf` from `offset`.
    fn stable64_read(&self, offset: u64, buf: &mut [u8]);
}

/// The number of pages it takes to hold `size` bytes.
pub open spec fn pages_for(size: u64) -> u64 {
    (size / WASM_PAGE_SIZE_IN_BYTES + if size % WASM_PAGE_SIZE_IN_BYTES > 0 {
        1int
    } else {
        0int
    }) as u64
}

/// Waits for `ms` milliseconds: not at all, since nothing here can wait.
pub fn conn_sleep(ms: u32) {
}

/// The size of the stable memory, in pages: always `STABLE_PAGES`.
pub fn stable64_size() -> (r: u64)
    ensures
        r == STABLE_PAGES,
{
    512 * 1024 * 1024
}

/// The capacity of the stable memory in bytes: its pages times 64 KiB.
pub fn stable_capacity() -> (r: u64)
    ensures
        r == STABLE_PAGES * WASM_PAGE_SIZE_IN_BYTES,
{
    let pages = stable64_size();
    assert(pages << 16 == pages * 65536) by (bit_vector)
        requires
            pages == 536870912,
    ;
    pages << 16
}

/// Grows the memory by the pages that `size` bytes take. The memory here is
/// fixed, so every request is answered like `stable64_grow`: with 0.
pub fn stable_grow_bytes(size: u64) -> (r: Result<u64, StableMemoryError>)
    ensures
        r == Ok::<u64, StableMemoryError>(0),
{
    let mut added_pages = size / WASM_PAGE_SIZE_IN_BYTES;
    if size % WASM_PAGE_SIZE_IN_BYTES > 0 {
        added_pages = added_pages + 1;
    }
    assert(added_pages == pages_for(size));
    stable64_grow(added_pages)
}

/// Grows the memory by `new_pages` pages. The memory here is fixed: nothing
/// grows, and the answer is always 0.
pub fn stable64_grow(new_pages: u64) -> (r: Result<u64, StableMemoryError>)
    ensures
        r == Ok::<u64, StableMemoryError>(0),
{
    Ok(0)
}

} // verus!
