//! How gaps are padded.

use crate::buffer::{buf_extend, buf_len, buf_resize, bytes_of, repeat_byte};
use bytes::BytesMut;
use vstd::prelude::*;

verus! {

#[verifier::external_type_specification]
#[verifier::external_body]
pub struct ExRandError(rand::Error);

#[verifier::external_type_specification]
#[verifier::external_body]
pub struct ExOsRng(rand::rngs::OsRng);

/// The bytes that pad a gap.
#[derive(Debug, Clone, Copy, PartialEq, Eq)]
pub enum FillPattern {
    Random,
    Zero,
    One,
}

impl Default for FillPattern {
    fn default() -> (r: FillPattern)
        ensures
            r == FillPattern::Zero,
    {
        FillPattern::Zero
    }
}

/// Whether `b` is a byte that `p` may pad with.
pub open spec fn fill_ok(p: FillPattern, b: u8) -> bool {
    match p {
        FillPattern::Zero => b == 0x00,
        FillPattern::One => b == 0xFF,
        FillPattern::Random => true,
    }
}

/// Relies on `rand::rngs::OsRng::new`: opens the operating system's random
/// source, or reports that it is not available.
#[verifier::external_body]
fn os_rng() -> (r: Result<rand::rngs::OsRng, rand::Error>) {
    rand::rngs::OsRng::new()
}

/// Relies on `RngCore::try_fill_bytes` of `rand::rngs::OsRng`: it either
/// fills the slice in place or reports that the source failed; it never
/// changes the length.
#[verifier::external_body]
fn os_fill(rng: &mut rand::rngs::OsRng, buf: &mut Vec<u8>) -> (r: Result<(), rand::Error>)
    ensures
        final(buf)@.len() == old(buf)@.len(),
{
    rand::RngCore::try_fill_bytes(rng, &mut buf[..])
}

/// The pad bytes that `p` writes into a gap of `n` bytes, where `noise`
/// holds the bytes drawn for a random pattern.
pub open spec fn pad_bytes(p: FillPattern, n: nat, noise: Seq<u8>) -> Seq<u8> {
    match p {
        FillPattern::Zero => repeat_byte(0x00, n),
        FillPattern::One => repeat_byte(0xFF, n),
        FillPattern::Random => noise,
    }
}

/// Pads `b` up to `n` bytes: with zero or `0xFF` bytes, or, for a random
/// pattern, with the bytes of `noise`, which fill the gap exactly.
pub fn pad_with(b: &mut BytesMut, n: usize, p: FillPattern, noise: &[u8])
    requires
        bytes_of(*old(b)).len() <= n,
        p == FillPattern::Random ==> noise@.len() == n - bytes_of(*old(b)).len(),
    ensures
        bytes_of(*final(b)) == bytes_of(*old(b)) + pad_bytes(p, (n - bytes_of(*old(b)).len()) as nat, noise@),
{
    let ghost gap = (n - bytes_of(*old(b)).len()) as nat;
    match p {
        FillPattern::Zero => {
            buf_resize(b, n, 0x00);
        },
        FillPattern::One => {
            buf_resize(b, n, 0xFF);
        },
        FillPattern::Random => {
            buf_extend(b, noise);
        },
    }
    assert(bytes_of(*b) =~= bytes_of(*old(b)) + pad_bytes(p, gap, noise@));
}

/// Pads `b` up to `n` bytes with bytes of pattern `p`. Only a random pattern
/// with a gap to fill asks the random source, and only that can fail.
pub fn pad_to(b: &mut BytesMut, n: usize, p: FillPattern) -> (r: Result<(), ()>)
    requires
        bytes_of(*old(b)).len() <= n,
    ensures
        r is Ok ==> {
            &&& bytes_of(*final(b)).len() == n
            &&& bytes_of(*final(b)).take(bytes_of(*old(b)).len() as int) == bytes_of(*old(b))
            &&& forall|i: int|
                bytes_of(*old(b)).len() <= i < n ==> fill_ok(p, #[trigger] bytes_of(*final(b))[i])
        },
        r is Ok && p != FillPattern::Random ==> bytes_of(*final(b)) == bytes_of(*old(b))
            + pad_bytes(p, (n - bytes_of(*old(b)).len()) as nat, Seq::empty()),
        r is Err ==> p == FillPattern::Random && bytes_of(*old(b)).len() < n,
        p != FillPattern::Random || bytes_of(*old(b)).len() == n ==> r is Ok,
{
    let len = buf_len(b);
    let gap: usize = n - len;
    let mut noise: Vec<u8> = Vec::new();
    let random = match p {
        FillPattern::Random => true,
        _ => false,
    };
    if random && gap > 0 {
        noise = vec![0u8; gap];
        let drawn = match os_rng() {
            Ok(mut rng) => os_fill(&mut rng, &mut noise),
            Err(e) => Err(e),
        };
        if drawn.is_err() {
            return Err(());
        }
    }
    pad_with(b, n, p, noise.as_slice());
    proof {
        let old_b = bytes_of(*old(b));
        let pads = pad_bytes(p, gap as nat, noise@);
        assert(bytes_of(*b).take(old_b.len() as int) =~= old_b);
        assert forall|i: int| old_b.len() <= i < n implies fill_ok(p, #[trigger] bytes_of(*b)[i]) by {
            assert(bytes_of(*b)[i] == pads[i - old_b.len()]);
        }
    }
    Ok(())
}

} // verus!
