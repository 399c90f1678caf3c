//! Operating-system randomness, through the `rand` crate.

use vstd::prelude::*;

use rand::TryRng;

verus! {

/// `rand::rngs::SysRng::try_fill_bytes`: `N` bytes from the operating
/// system's random source, or `None` when that source fails. Nothing is
/// claimed of the bytes' values.
#[verifier::external_body]
pub(crate) fn random_bytes<const N: usize>() -> (r: Option<[u8; N]>) {
    let mut out = [0u8; N];
    match rand::rngs::SysRng.try_fill_bytes(&mut out[..]) {
        Ok(()) => Some(out),
        Err(_) => None,
    }
}

} // verus!
