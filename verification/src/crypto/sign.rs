//! Pure ML-DSA-65 signatures with the FIPS 204 context parameter, through
//! the `ml-dsa` crate. Every protocol signature names one of six contexts.

use vstd::prelude::*;

use crate::error::{Error, Result};
use crate::wire::bytes_eq;

verus! {

pub open spec fn identity_context() -> Seq<u8> {
    seq![113u8, 102, 115, 47, 118, 49, 47, 105, 100]
}

pub open spec fn wrap_context() -> Seq<u8> {
    seq![113u8, 102, 115, 47, 118, 49, 47, 119, 114, 97, 112]
}

pub open spec fn manifest_context() -> Seq<u8> {
    seq![113u8, 102, 115, 47, 118, 49, 47, 109, 97, 110, 105, 102, 101, 115, 116]
}

pub open spec fn flush_context() -> Seq<u8> {
    seq![113u8, 102, 115, 47, 118, 49, 47, 102, 108, 117, 115, 104]
}

pub open spec fn directory_context() -> Seq<u8> {
    seq![113u8, 102, 115, 47, 118, 49, 47, 100, 105, 114]
}

pub open spec fn join_context() -> Seq<u8> {
    seq![113u8, 102, 115, 47, 118, 49, 47, 106, 111, 105, 110]
}

pub open spec fn protocol_context(c: Seq<u8>) -> bool {
    c == identity_context() || c == wrap_context() || c == manifest_context() || c
        == flush_context() || c == directory_context() || c == join_context()
}

pub const IDENTITY_CONTEXT: [u8; 9] = [113, 102, 115, 47, 118, 49, 47, 105, 100];

pub const WRAP_CONTEXT: [u8; 11] = [113, 102, 115, 47, 118, 49, 47, 119, 114, 97, 112];

pub const MANIFEST_CONTEXT: [u8; 15] = [113, 102, 115, 47, 118, 49, 47, 109, 97, 110, 105, 102, 101, 115, 116];

pub const FLUSH_CONTEXT: [u8; 12] = [113, 102, 115, 47, 118, 49, 47, 102, 108, 117, 115, 104];

pub const DIRECTORY_CONTEXT: [u8; 10] = [113, 102, 115, 47, 118, 49, 47, 100, 105, 114];

pub const JOIN_CONTEXT: [u8; 11] = [113, 102, 115, 47, 118, 49, 47, 106, 111, 105, 110];

/// Whether `verification_key` accepts `signature` on `message` under
/// `context`; false when either encoding is malformed. It depends on the
/// four byte strings alone.
pub uninterp spec fn mldsa65_accepts(
    verification_key: Seq<u8>,
    context: Seq<u8>,
    message: Seq<u8>,
    signature: Seq<u8>,
) -> bool;

/// The deterministic ML-DSA-65 signature of the key with this seed, or
/// `None` when signing fails.
pub uninterp spec fn mldsa65_signing(seed: Seq<u8>, context: Seq<u8>, message: Seq<u8>) -> Option<Seq<u8>>;

/// The encoded verification key of the key with this seed.
pub uninterp spec fn mldsa65_verification_key(seed: Seq<u8>) -> Seq<u8>;

/// `VerifyingKey::<MlDsa65>::new_from_slice`, `Signature::try_from` and
/// `verify_with_context`: true exactly when `mldsa65_accepts` holds.
#[verifier::external_body]
fn mldsa65_verify(verification_key: &[u8], context: &[u8], message: &[u8], signature: &[u8]) -> (r: bool)
    ensures
        r == mldsa65_accepts(verification_key@, context@, message@, signature@),
{
    let Ok(key) = <ml_dsa::VerifyingKey<ml_dsa::MlDsa65> as ml_dsa::KeyInit>::new_from_slice(
        verification_key,
    ) else {
        return false;
    };
    let Ok(signature) = ml_dsa::Signature::<ml_dsa::MlDsa65>::try_from(signature) else {
        return false;
    };
    key.verify_with_context(message, context, &signature)
}

/// `SigningKey::<MlDsa65>::from_seed` then `sign_deterministic`, encoded.
/// The result is `mldsa65_signing`; a signature it returns is accepted
/// under the seed's verification key (FIPS 204 correctness).
#[verifier::external_body]
fn mldsa65_sign(seed: &[u8; 32], context: &[u8], message: &[u8]) -> (r: Option<Vec<u8>>)
    ensures
        match r {
            Some(s) => mldsa65_signing(seed@, context@, message@) == Some(s@) && mldsa65_accepts(
                mldsa65_verification_key(seed@),
                context@,
                message@,
                s@,
            ),
            None => mldsa65_signing(seed@, context@, message@) is None,
        },
{
    let mut xi = ml_dsa::Seed::from(*seed);
    let key = ml_dsa::SigningKey::<ml_dsa::MlDsa65>::from_seed(&xi);
    zeroize::Zeroize::zeroize(xi.as_mut_slice());
    key.expanded_key().sign_deterministic(message, context).ok().map(|s| s.encode().as_slice().to_vec())
}

/// `SigningKey::<MlDsa65>::from_seed` then `verifying_key().encode()`.
#[verifier::external_body]
fn mldsa65_public_key(seed: &[u8; 32]) -> (r: Vec<u8>)
    ensures
        r@ == mldsa65_verification_key(seed@),
{
    let mut xi = ml_dsa::Seed::from(*seed);
    let key = ml_dsa::SigningKey::<ml_dsa::MlDsa65>::from_seed(&xi);
    zeroize::Zeroize::zeroize(xi.as_mut_slice());
    <ml_dsa::SigningKey<ml_dsa::MlDsa65> as ml_dsa::Keypair>::verifying_key(&key).encode().as_slice().to_vec()
}

/// Only the six protocol contexts may be used.
pub fn require_protocol_context(context: &[u8]) -> (r: Result<()>)
    ensures
        r is Ok <==> protocol_context(context@),
        r matches Err(e) ==> e is InvalidInput,
{
    let identity = IDENTITY_CONTEXT;
    let wrap = WRAP_CONTEXT;
    let manifest = MANIFEST_CONTEXT;
    let flush = FLUSH_CONTEXT;
    let directory = DIRECTORY_CONTEXT;
    let join = JOIN_CONTEXT;
    assert(identity@ =~= identity_context());
    assert(wrap@ =~= wrap_context());
    assert(manifest@ =~= manifest_context());
    assert(flush@ =~= flush_context());
    assert(directory@ =~= directory_context());
    assert(join@ =~= join_context());
    if bytes_eq(context, &identity) || bytes_eq(context, &wrap) || bytes_eq(context, &manifest)
        || bytes_eq(context, &flush) || bytes_eq(context, &directory) || bytes_eq(context, &join) {
        Ok(())
    } else {
        Err(Error::InvalidInput("unsupported ML-DSA context"))
    }
}

/// An opaque signing-key seed.
#[derive(Clone)]
pub struct SigningKeyHandle {
    seed: [u8; 32],
}

impl SigningKeyHandle {
    pub closed spec fn seed_bytes(&self) -> Seq<u8> {
        self.seed@
    }

    /// A key from a fresh random seed; fails only when the operating
    /// system's random source does.
    pub fn generate() -> (r: Result<Self>)
        ensures
            r matches Err(e) ==> e is State,
    {
        match crate::crypto::random::random_bytes::<32>() {
            Some(seed) => Ok(Self::from_seed(seed)),
            None => Err(Error::State("OS entropy unavailable")),
        }
    }

    pub fn from_seed(seed: [u8; 32]) -> (r: Self)
        ensures
            r.seed_bytes() == seed@,
    {
        SigningKeyHandle { seed }
    }

    pub fn seed(&self) -> (r: &[u8; 32])
        ensures
            r@ == self.seed_bytes(),
    {
        &self.seed
    }

    pub fn verification_key(&self) -> (r: Vec<u8>)
        ensures
            r@ == mldsa65_verification_key(self.seed_bytes()),
    {
        mldsa65_public_key(&self.seed)
    }
}

/// Pure ML-DSA-65 with the FIPS 204 context parameter.
pub trait PureMlDsa {
    fn sign(&self, signing_key_handle: &SigningKeyHandle, context: &[u8], message: &[u8]) -> Result<
        Vec<u8>,
    >;

    fn verify(&self, verification_key: &[u8], context: &[u8], message: &[u8], signature: &[u8]) -> Result<()>;
}

/// The `ml-dsa` crate's implementation.
pub struct RustCryptoPureMlDsa;

impl PureMlDsa for RustCryptoPureMlDsa {
    fn sign(&self, signing_key_handle: &SigningKeyHandle, context: &[u8], message: &[u8]) -> (r: Result<
        Vec<u8>,
    >)
        ensures
            match r {
                Ok(s) => protocol_context(context@) && mldsa65_signing(
                    signing_key_handle.seed_bytes(),
                    context@,
                    message@,
                ) == Some(s@),
                Err(e) => (e is InvalidInput && !protocol_context(context@)) || (e is AuthenticationFailed
                    && protocol_context(context@) && mldsa65_signing(
                    signing_key_handle.seed_bytes(),
                    context@,
                    message@,
                ) is None),
            },
    {
        require_protocol_context(context)?;
        match mldsa65_sign(signing_key_handle.seed(), context, message) {
            Some(s) => Ok(s),
            None => Err(Error::AuthenticationFailed),
        }
    }

    fn verify(&self, verification_key: &[u8], context: &[u8], message: &[u8], signature: &[u8]) -> (r: Result<()>)
        ensures
            match r {
                Ok(()) => protocol_context(context@) && mldsa65_accepts(
                    verification_key@,
                    context@,
                    message@,
                    signature@,
                ),
                Err(e) => (e is InvalidInput && !protocol_context(context@)) || (e is AuthenticationFailed
                    && protocol_context(context@) && !mldsa65_accepts(
                    verification_key@,
                    context@,
                    message@,
                    signature@,
                )),
            },
    {
        require_protocol_context(context)?;
        if mldsa65_verify(verification_key, context, message, signature) {
            Ok(())
        } else {
            Err(Error::AuthenticationFailed)
        }
    }
}

} // verus!
