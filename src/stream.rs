//! The byte streams that passes write.
use rand_chacha::rand_core::{RngCore, SeedableRng};
use rand_chacha::ChaCha20Rng;
use vstd::prelude::*;

use crate::scheme::Pass;

verus! {

/// The first `len` bytes of the ChaCha20 keystream keyed by `seed` on the
/// stream numbered `stream`.
pub uninterp spec fn keystream(seed: Seq<u8>, stream: u64, len: nat) -> Seq<u8>;

/// Relies on rand_chacha's `ChaCha20Rng`: a generator made by `from_seed`,
/// moved by `set_stream` to stream `stream` before any output, fills `buf` by
/// `fill_bytes` with bytes that depend on the seed, the stream and the
/// length alone.
#[verifier::external_body]
fn chacha_fill(seed: &[u8; 32], stream: u64, buf: &mut Vec<u8>)
    ensures
        final(buf)@ == keystream(seed@, stream, old(buf)@.len()),
        final(buf)@.len() == old(buf)@.len(),
{
    let mut rng = ChaCha20Rng::from_seed(*seed);
    rng.set_stream(stream);
    rng.fill_bytes(buf.as_mut_slice());
}

/// Relies on `rand::random`: 32 bytes from the thread-local generator, which
/// the operating system's entropy seeds.
#[verifier::external_body]
pub(crate) fn fresh_seed() -> (r: [u8; 32]) {
    rand::random::<[u8; 32]>()
}

/// The bytes that `pass` writes into block number `block` of `len` bytes.
pub open spec fn pass_block(pass: Pass, seed: Seq<u8>, block: u64, len: nat) -> Seq<u8> {
    match pass {
        Pass::Fill(b) => Seq::new(len, |_i: int| b),
        Pass::Random => keystream(seed, block, len),
    }
}

/// Fills `buf` with the bytes that `pass` writes into block number `block`;
/// a random pass is keyed by `seed`, which a fill pass ignores.
pub fn fill_block(pass: Pass, seed: &[u8; 32], block: u64, buf: &mut Vec<u8>)
    ensures
        final(buf)@ == pass_block(pass, seed@, block, old(buf)@.len()),
        final(buf)@.len() == old(buf)@.len(),
{
    match pass {
        Pass::Fill(b) => {
            let mut i: usize = 0;
            while i < buf.len()
                invariant
                    0 <= i <= buf@.len(),
                    buf@.len() == old(buf)@.len(),
                    forall|k: int| 0 <= k < i ==> buf@[k] == b,
                decreases buf@.len() - i,
            {
                buf[i] = b;
                i = i + 1;
            }
            assert(buf@ =~= pass_block(pass, seed@, block, old(buf)@.len()));
        },
        Pass::Random => {
            chacha_fill(seed, block, buf);
        },
    }
}

} // verus!
