//! What stands in for the operating system's randomness: bytes that are the
//! same on every machine.

use crate::errors::Error;
use crate::layout::zeros;
use vstd::prelude::*;

verus! {

/// The length of a beacon digest.
pub const SEED_LEN: usize = 32;

/// The `i`-th byte of the stream that a seed is drawn out into: the seed's
/// bytes over and over, each read as a signed byte.
pub open spec fn stream_byte(seed: Seq<u8>, i: int) -> i8 {
    seed[i % (seed.len() as int)] as i8
}

/// The source of randomness for code that asks the operating system: it
/// fills `buf` with zero bytes and never fails.
pub fn randomness(buf: &mut [u8]) -> (r: Result<(), Error>)
    ensures
        r is Ok,
        final(buf)@ == zeros(old(buf)@.len()),
{
    let n = buf.len();
    let mut i: usize = 0;
    while i < n
        invariant
            i <= n,
            n == buf@.len(),
            n == old(buf)@.len(),
            forall|j: int| 0 <= j < i ==> buf@[j] == 0u8,
        decreases n - i,
    {
        buf[i] = 0;
        i = i + 1;
    }
    assert(buf@ =~= zeros(n as nat));
    Ok(())
}

/// Fills `buffer` from the beacon digest `seed`: byte `i` of the buffer is
/// byte `i` of the stream drawn from the seed, so the whole buffer is filled
/// whatever its length, and the same seed gives the same bytes.
pub fn fill_random(seed: &[u8; 32], buffer: &mut [i8])
    ensures
        final(buffer)@.len() == old(buffer)@.len(),
        forall|i: int| 0 <= i < old(buffer)@.len() ==> final(buffer)@[i] == stream_byte(seed@, i),
{
    let n = buffer.len();
    let mut i: usize = 0;
    while i < n
        invariant
            i <= n,
            n == buffer@.len(),
            n == old(buffer)@.len(),
            seed@.len() == 32,
            forall|j: int| 0 <= j < i ==> buffer@[j] == stream_byte(seed@, j),
        decreases n - i,
    {
        let b: u8 = seed[i % SEED_LEN];
        buffer[i] = b as i8;
        i = i + 1;
    }
}

} // verus!
