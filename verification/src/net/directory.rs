//! Signed join-code directory records.

use vstd::prelude::*;

use crate::crypto::hash::sha256_digest;
use crate::crypto::sign::{
    directory_context, mldsa65_accepts, mldsa65_signing, PureMlDsa, RustCryptoPureMlDsa,
    SigningKeyHandle, DIRECTORY_CONTEXT,
};
use crate::encoding::digests::{peer_id, peer_id_domain};
use crate::crypto::identity::IdentityDocument;
use crate::encoding::directory::{directory_ad_m, directory_ad_m_bytes, directory_ad_m_fits};
use crate::encoding::identity::{dir_forget_m, dir_forget_m_bytes};
use crate::error::{Error, Result};
use crate::ids::{bytes32_eq, PeerId};
use crate::net::frame::Frame;
use crate::net::{JoinCode, VaultId};
use crate::wire::be64;

verus! {

/// A signed advertisement of where the member serving `vault_id` listens.
/// `addr` is the numeric socket address as text, exactly as it is signed;
/// the network layer parses it.
#[derive(Clone, Debug, PartialEq, Eq)]
pub struct DirectoryAd {
    pub peer_id: PeerId,
    pub vault_id: VaultId,
    pub addr: String,
    pub ek: Vec<u8>,
    pub vk: Vec<u8>,
    pub issued_at: u64,
    pub signature: Vec<u8>,
}

/// The newest record time the directory has accepted from one member for
/// one vault, with the key that signed it.
#[derive(Clone, Debug, PartialEq, Eq)]
pub struct DirectoryWatermark {
    pub peer_id: PeerId,
    pub vault_id: VaultId,
    pub issued_at: u64,
    pub vk: Vec<u8>,
}

/// What the directory keeps on disk: its ads by join code, and its
/// watermarks.
#[derive(Clone, PartialEq, Eq)]
pub struct DirectoryState {
    pub ads: Vec<(JoinCode, DirectoryAd)>,
    pub watermarks: Vec<DirectoryWatermark>,
}

/// A signed request to drop one join code from the directory.
#[derive(Clone, PartialEq, Eq)]
pub struct DirForget {
    pub peer_id: PeerId,
    pub vault_id: VaultId,
    pub join_code: JoinCode,
    pub issued_at: u64,
    pub signature: Vec<u8>,
}

/// A directory record older than this is expired.
pub const MAX_AD_AGE_SECS: u64 = 604800;

/// A directory record may be dated at most this far ahead.
pub const MAX_FUTURE_SKEW_SECS: u64 = 120;

pub open spec fn expired(issued_at: u64, now: u64) -> bool {
    now > issued_at && now - issued_at > MAX_AD_AGE_SECS
}

pub open spec fn too_far_ahead(issued_at: u64, now: u64) -> bool {
    issued_at > now + MAX_FUTURE_SKEW_SECS
}

pub fn is_expired(issued_at: u64, now: u64) -> (r: bool)
    ensures
        r == expired(issued_at, now),
{
    now.saturating_sub(issued_at) > MAX_AD_AGE_SECS
}

/// A record is current when it is neither expired nor dated too far ahead.
pub fn require_current(issued_at: u64, now: u64) -> (r: Result<()>)
    ensures
        r is Ok <==> !too_far_ahead(issued_at, now) && !expired(issued_at, now),
        r matches Err(e) ==> e is InvalidInput,
{
    if issued_at > now.saturating_add(MAX_FUTURE_SKEW_SECS) {
        return Err(Error::InvalidInput("directory record is too far in the future"));
    }
    if is_expired(issued_at, now) {
        return Err(Error::InvalidInput("directory record is expired"));
    }
    Ok(())
}

/// The join code of a lookup request.
pub fn decode_join_code(payload: &[u8]) -> (r: Result<JoinCode>)
    ensures
        match r {
            Ok(code) => payload@.len() == 16 && code@ == payload@,
            Err(e) => e is InvalidInput && payload@.len() != 16,
        },
{
    if payload.len() != 16 {
        return Err(Error::InvalidInput("directory lookup requires a 16-byte join code"));
    }
    let mut out = [0u8; 16];
    let mut i: usize = 0;
    while i < 16
        invariant
            i <= 16,
            payload@.len() == 16,
            forall|j: int| 0 <= j < i ==> out@[j] == payload@[j],
        decreases 16 - i,
    {
        out[i] = payload[i];
        i = i + 1;
    }
    assert(out@ =~= payload@);
    Ok(JoinCode(out))
}

/// An acknowledgement is a frame of the expected kind with no payload.
pub fn require_empty_ack(response: Frame, expected_kind: u8) -> (r: Result<()>)
    ensures
        r is Ok <==> response.kind == expected_kind && response.payload@.len() == 0,
        r matches Err(e) ==> e is InvalidInput,
{
    if response.kind != expected_kind || response.payload.len() != 0 {
        return Err(Error::InvalidInput("invalid directory acknowledgement"));
    }
    Ok(())
}

/// A current forget request from the owner of `vk`, signed by it.
pub open spec fn forget_signed(f: DirForget, vk: Seq<u8>, now: u64) -> bool {
    &&& !too_far_ahead(f.issued_at, now)
    &&& !expired(f.issued_at, now)
    &&& f.peer_id@ == sha256_digest(peer_id_domain() + vk)
    &&& mldsa65_accepts(vk, directory_context(), dir_forget_m_bytes(f), f.signature@)
}

impl DirForget {
    /// A forget request for `join_code`, signed by the member `peer_id`
    /// whose key is `signing_key`.
    pub fn sign(
        peer_id: PeerId,
        signing_key: &SigningKeyHandle,
        vault_id: VaultId,
        join_code: JoinCode,
        issued_at: u64,
    ) -> (r: Result<Self>)
        ensures
            match r {
                Ok(f) => f.peer_id == peer_id && f.vault_id@ == vault_id@ && f.join_code@
                    == join_code@ && f.issued_at == issued_at && mldsa65_signing(
                    signing_key.seed_bytes(),
                    directory_context(),
                    dir_forget_m_bytes(f),
                ) == Some(f.signature@),
                Err(e) => e is AuthenticationFailed && mldsa65_signing(
                    signing_key.seed_bytes(),
                    directory_context(),
                    peer_id@ + (vault_id@ + (join_code@ + be64(issued_at))),
                ) is None,
            },
    {
        let mut request = DirForget { peer_id, vault_id, join_code, issued_at, signature: Vec::new() };
        let message = dir_forget_m(&request);
        assert(message@ =~= peer_id@ + (vault_id@ + (join_code@ + be64(issued_at))));
        assert(DIRECTORY_CONTEXT@ =~= directory_context());
        let signature = RustCryptoPureMlDsa.sign(signing_key, &DIRECTORY_CONTEXT, message.as_slice())?;
        request.signature = signature;
        Ok(request)
    }

    /// A current request from the owner of `verification_key`, with a valid
    /// directory signature.
    pub fn verify(&self, verification_key: &[u8], now: u64) -> (r: Result<()>)
        ensures
            r is Ok <==> forget_signed(*self, verification_key@, now),
            r matches Err(e) ==> e is InvalidInput || e is AuthenticationFailed,
    {
        require_current(self.issued_at, now)?;
        let expected = peer_id(verification_key);
        if !bytes32_eq(&self.peer_id.0, &expected.0) {
            return Err(Error::AuthenticationFailed);
        }
        let message = dir_forget_m(self);
        RustCryptoPureMlDsa.verify(verification_key, &DIRECTORY_CONTEXT, message.as_slice(), self.signature.as_slice())
    }
}

/// What an advertisement says, as plain values.
pub struct AdV {
    pub peer_id: Seq<u8>,
    pub vault_id: Seq<u8>,
    pub addr: Seq<char>,
    pub ek: Seq<u8>,
    pub vk: Seq<u8>,
    pub issued_at: u64,
    pub signature: Seq<u8>,
}

impl View for DirectoryAd {
    type V = AdV;

    open spec fn view(&self) -> AdV {
        AdV {
            peer_id: self.peer_id@,
            vault_id: self.vault_id@,
            addr: self.addr@,
            ek: self.ek@,
            vk: self.vk@,
            issued_at: self.issued_at,
            signature: self.signature@,
        }
    }
}

/// An ad signed by the key its member id is the hash of.
pub open spec fn ad_signed(ad: DirectoryAd) -> bool {
    &&& ad.peer_id@ == sha256_digest(peer_id_domain() + ad.vk@)
    &&& directory_ad_m_fits(ad)
    &&& mldsa65_accepts(ad.vk@, directory_context(), directory_ad_m_bytes(ad), ad.signature@)
}

impl DirectoryAd {
    /// A field-by-field copy.
    pub fn duplicate(&self) -> (r: Self)
        ensures
            r@ == self@,
    {
        DirectoryAd {
            peer_id: self.peer_id,
            vault_id: self.vault_id,
            addr: self.addr.clone(),
            ek: self.ek.clone(),
            vk: self.vk.clone(),
            issued_at: self.issued_at,
            signature: self.signature.clone(),
        }
    }

    /// An ad for `vault_id` at `addr`, carrying the member's public keys from
    /// `identity` and signed with its `signing_key`.
    pub fn sign(
        identity: &IdentityDocument,
        signing_key: &SigningKeyHandle,
        vault_id: VaultId,
        addr: String,
        issued_at: u64,
    ) -> (r: Result<Self>)
        ensures
            match r {
                Ok(ad) => {
                    &&& ad.peer_id == identity.peer_id
                    &&& ad.vault_id@ == vault_id@
                    &&& ad.addr@ == addr@
                    &&& ad.ek@ == identity.ek@
                    &&& ad.vk@ == identity.vk@
                    &&& ad.issued_at == issued_at
                    &&& directory_ad_m_fits(ad)
                    &&& mldsa65_signing(signing_key.seed_bytes(), directory_context(), directory_ad_m_bytes(ad))
                        == Some(ad.signature@)
                },
                Err(e) => exists|ad: DirectoryAd|
                    #![trigger directory_ad_m_bytes(ad)]
                    {
                        &&& ad.peer_id == identity.peer_id
                        &&& ad.vault_id@ == vault_id@
                        &&& ad.addr@ == addr@
                        &&& ad.ek@ == identity.ek@
                        &&& ad.vk@ == identity.vk@
                        &&& ad.issued_at == issued_at
                        &&& ((e is InvalidInput && !directory_ad_m_fits(ad)) || (e is AuthenticationFailed
                            && directory_ad_m_fits(ad) && mldsa65_signing(
                            signing_key.seed_bytes(),
                            directory_context(),
                            directory_ad_m_bytes(ad),
                        ) is None))
                    },
            },
    {
        let mut ad = DirectoryAd {
            peer_id: identity.peer_id,
            vault_id,
            addr,
            ek: identity.ek.clone(),
            vk: identity.vk.clone(),
            issued_at,
            signature: Vec::new(),
        };
        let message = match directory_ad_m(&ad) {
            Ok(m) => m,
            Err(e) => {
                assert(directory_ad_m_bytes(ad) == directory_ad_m_bytes(ad));
                return Err(e);
            },
        };
        assert(DIRECTORY_CONTEXT@ =~= directory_context());
        let signature = match RustCryptoPureMlDsa.sign(signing_key, &DIRECTORY_CONTEXT, message.as_slice()) {
            Ok(sig) => sig,
            Err(e) => {
                assert(directory_ad_m_bytes(ad) == directory_ad_m_bytes(ad));
                return Err(e);
            },
        };
        ad.signature = signature;
        Ok(ad)
    }

    /// The member id is the hash of the ad's key, and that key signed it.
    pub fn verify_signature(&self) -> (r: Result<()>)
        ensures
            r is Ok <==> ad_signed(*self),
            r matches Err(e) ==> e is InvalidInput || e is AuthenticationFailed,
    {
        let expected = peer_id(self.vk.as_slice());
        if !bytes32_eq(&self.peer_id.0, &expected.0) {
            return Err(Error::AuthenticationFailed);
        }
        let message = directory_ad_m(self)?;
        RustCryptoPureMlDsa.verify(self.vk.as_slice(), &DIRECTORY_CONTEXT, message.as_slice(), self.signature.as_slice())
    }

    /// A current ad with a valid signature.
    pub fn verify(&self, now: u64) -> (r: Result<()>)
        ensures
            r is Ok <==> !too_far_ahead(self.issued_at, now) && !expired(self.issued_at, now) && ad_signed(*self),
            r matches Err(e) ==> e is InvalidInput || e is AuthenticationFailed,
    {
        require_current(self.issued_at, now)?;
        self.verify_signature()
    }
}

// ---------------------------------------------------------------------------
// The directory store
// ---------------------------------------------------------------------------

/// The most live ads one member may hold.
pub const MAX_ADS_PER_PEER: usize = 32;

/// The most ads, and the most watermarks, the directory holds.
pub const MAX_TOTAL_ADS: usize = 10000;

/// The key a watermark is kept under: member and vault.
pub open spec fn mark_key(w: DirectoryWatermark) -> (Seq<u8>, Seq<u8>) {
    (w.peer_id@, w.vault_id@)
}

pub open spec fn codes_unique(s: Seq<(JoinCode, DirectoryAd)>) -> bool {
    forall|i: int, j: int| 0 <= i < j < s.len() ==> (#[trigger] s[i]).0@ != (#[trigger] s[j]).0@
}

pub open spec fn mark_keys_unique(s: Seq<DirectoryWatermark>) -> bool {
    forall|i: int, j: int| 0 <= i < j < s.len() ==> mark_key(#[trigger] s[i]) != mark_key(#[trigger] s[j])
}

pub open spec fn has_code(s: Seq<(JoinCode, DirectoryAd)>, k: Seq<u8>) -> bool {
    exists|i: int| 0 <= i < s.len() && (#[trigger] s[i]).0@ == k
}

pub open spec fn has_mark(s: Seq<DirectoryWatermark>, k: (Seq<u8>, Seq<u8>)) -> bool {
    exists|i: int| 0 <= i < s.len() && mark_key(#[trigger] s[i]) == k
}

/// The ads of a list, by join code.
pub open spec fn ads_map(s: Seq<(JoinCode, DirectoryAd)>) -> Map<Seq<u8>, AdV> {
    Map::new(
        |k: Seq<u8>| has_code(s, k),
        |k: Seq<u8>| s[choose|i: int| 0 <= i < s.len() && (#[trigger] s[i]).0@ == k].1@,
    )
}

/// The watermarks of a list, by member and vault: time and key.
pub open spec fn marks_map(s: Seq<DirectoryWatermark>) -> Map<(Seq<u8>, Seq<u8>), (u64, Seq<u8>)> {
    Map::new(
        |k: (Seq<u8>, Seq<u8>)| has_mark(s, k),
        |k: (Seq<u8>, Seq<u8>)| {
            let w = s[choose|i: int| 0 <= i < s.len() && mark_key(#[trigger] s[i]) == k];
            (w.issued_at, w.vk@)
        },
    )
}

/// The ads that have not expired at `now`.
pub open spec fn live_ads(a: Map<Seq<u8>, AdV>, now: u64) -> Map<Seq<u8>, AdV> {
    Map::new(|k: Seq<u8>| a.dom().contains(k) && !expired(a[k].issued_at, now), |k: Seq<u8>| a[k])
}

/// The watermarks that have not expired at `now`.
pub open spec fn live_marks(m: Map<(Seq<u8>, Seq<u8>), (u64, Seq<u8>)>, now: u64) -> Map<(Seq<u8>, Seq<u8>), (u64, Seq<u8>)> {
    Map::new(|k: (Seq<u8>, Seq<u8>)| m.dom().contains(k) && !expired(m[k].0, now), |k: (Seq<u8>, Seq<u8>)| m[k])
}

/// How many of the ads in `a` belong to member `p`.
pub open spec fn peer_ad_count(a: Map<Seq<u8>, AdV>, p: Seq<u8>) -> nat {
    a.dom().filter(|k: Seq<u8>| a[k].peer_id == p).len()
}

proof fn lemma_ads_map_at(s: Seq<(JoinCode, DirectoryAd)>, i: int)
    requires
        codes_unique(s),
        0 <= i < s.len(),
    ensures
        ads_map(s).dom().contains(s[i].0@),
        ads_map(s)[s[i].0@] == s[i].1@,
{
    let k = s[i].0@;
    assert(has_code(s, k));
    let j = choose|j: int| 0 <= j < s.len() && (#[trigger] s[j]).0@ == k;
    if j != i {
        if j < i {
            assert(s[j].0@ != s[i].0@);
        } else {
            assert(s[i].0@ != s[j].0@);
        }
    }
}

proof fn lemma_marks_map_at(s: Seq<DirectoryWatermark>, i: int)
    requires
        mark_keys_unique(s),
        0 <= i < s.len(),
    ensures
        marks_map(s).dom().contains(mark_key(s[i])),
        marks_map(s)[mark_key(s[i])] == (s[i].issued_at, s[i].vk@),
{
    let k = mark_key(s[i]);
    assert(has_mark(s, k));
    let j = choose|j: int| 0 <= j < s.len() && mark_key(#[trigger] s[j]) == k;
    if j != i {
        if j < i {
            assert(mark_key(s[j]) != mark_key(s[i]));
        } else {
            assert(mark_key(s[i]) != mark_key(s[j]));
        }
    }
}

/// Appending an ad under a new code adds that code to the map.
proof fn lemma_ads_map_push(s: Seq<(JoinCode, DirectoryAd)>, e: (JoinCode, DirectoryAd))
    requires
        codes_unique(s),
        !has_code(s, e.0@),
    ensures
        codes_unique(s.push(e)),
        ads_map(s.push(e)) == ads_map(s).insert(e.0@, e.1@),
{
    let t = s.push(e);
    assert forall|i: int, j: int| 0 <= i < j < t.len() implies (#[trigger] t[i]).0@ != (#[trigger] t[j]).0@ by {
        if j == s.len() {
            assert(t[i] == s[i]);
        } else {
            assert(t[i] == s[i] && t[j] == s[j]);
        }
    }
    assert forall|k: Seq<u8>| #[trigger] ads_map(t).dom().contains(k) == ads_map(s).insert(e.0@, e.1@).dom().contains(k) by {
        if has_code(t, k) {
            let i = choose|i: int| 0 <= i < t.len() && (#[trigger] t[i]).0@ == k;
            if i < s.len() {
                assert(t[i] == s[i]);
            }
        }
        if has_code(s, k) {
            let i = choose|i: int| 0 <= i < s.len() && (#[trigger] s[i]).0@ == k;
            assert(t[i] == s[i]);
        }
        if k == e.0@ {
            assert(t[s.len() as int] == e);
        }
    }
    assert forall|k: Seq<u8>| ads_map(t).dom().contains(k) implies #[trigger] ads_map(t)[k] == ads_map(s).insert(e.0@, e.1@)[k] by {
        let i = choose|i: int| 0 <= i < t.len() && (#[trigger] t[i]).0@ == k;
        lemma_ads_map_at(t, i);
        if i < s.len() {
            assert(t[i] == s[i]);
            lemma_ads_map_at(s, i);
        } else {
            assert(t[i] == e);
        }
    }
    assert(ads_map(t) =~= ads_map(s).insert(e.0@, e.1@));
}

/// Appending a watermark under a new key adds that key to the map.
proof fn lemma_marks_map_push(s: Seq<DirectoryWatermark>, w: DirectoryWatermark)
    requires
        mark_keys_unique(s),
        !has_mark(s, mark_key(w)),
    ensures
        mark_keys_unique(s.push(w)),
        marks_map(s.push(w)) == marks_map(s).insert(mark_key(w), (w.issued_at, w.vk@)),
{
    let t = s.push(w);
    assert forall|i: int, j: int| 0 <= i < j < t.len() implies mark_key(#[trigger] t[i]) != mark_key(#[trigger] t[j]) by {
        if j == s.len() {
            assert(t[i] == s[i]);
        } else {
            assert(t[i] == s[i] && t[j] == s[j]);
        }
    }
    let v = (w.issued_at, w.vk@);
    assert forall|k: (Seq<u8>, Seq<u8>)| #[trigger] marks_map(t).dom().contains(k) == marks_map(s).insert(mark_key(w), v).dom().contains(k) by {
        if has_mark(t, k) {
            let i = choose|i: int| 0 <= i < t.len() && mark_key(#[trigger] t[i]) == k;
            if i < s.len() {
                assert(t[i] == s[i]);
            }
        }
        if has_mark(s, k) {
            let i = choose|i: int| 0 <= i < s.len() && mark_key(#[trigger] s[i]) == k;
            assert(t[i] == s[i]);
        }
        if k == mark_key(w) {
            assert(t[s.len() as int] == w);
        }
    }
    assert forall|k: (Seq<u8>, Seq<u8>)| marks_map(t).dom().contains(k) implies #[trigger] marks_map(t)[k] == marks_map(s).insert(mark_key(w), v)[k] by {
        let i = choose|i: int| 0 <= i < t.len() && mark_key(#[trigger] t[i]) == k;
        lemma_marks_map_at(t, i);
        if i < s.len() {
            assert(t[i] == s[i]);
            lemma_marks_map_at(s, i);
        } else {
            assert(t[i] == w);
        }
    }
    assert(marks_map(t) =~= marks_map(s).insert(mark_key(w), v));
}

/// Replacing the ad at a code's position rebinds that code.
proof fn lemma_ads_map_set(s: Seq<(JoinCode, DirectoryAd)>, i: int, e: (JoinCode, DirectoryAd))
    requires
        codes_unique(s),
        0 <= i < s.len(),
        s[i].0@ == e.0@,
    ensures
        codes_unique(s.update(i, e)),
        ads_map(s.update(i, e)) == ads_map(s).insert(e.0@, e.1@),
{
    let t = s.update(i, e);
    assert forall|a: int, b: int| 0 <= a < b < t.len() implies (#[trigger] t[a]).0@ != (#[trigger] t[b]).0@ by {
        assert(t[a].0@ == s[a].0@ && t[b].0@ == s[b].0@);
    }
    lemma_ads_map_at(s, i);
    assert forall|k: Seq<u8>| #[trigger] ads_map(t).dom().contains(k) == ads_map(s).insert(e.0@, e.1@).dom().contains(k) by {
        if has_code(t, k) {
            let j = choose|j: int| 0 <= j < t.len() && (#[trigger] t[j]).0@ == k;
            assert(s[j].0@ == k);
        }
        if has_code(s, k) {
            let j = choose|j: int| 0 <= j < s.len() && (#[trigger] s[j]).0@ == k;
            assert(t[j].0@ == k);
        }
    }
    assert forall|k: Seq<u8>| ads_map(t).dom().contains(k) implies #[trigger] ads_map(t)[k] == ads_map(s).insert(e.0@, e.1@)[k] by {
        let j = choose|j: int| 0 <= j < t.len() && (#[trigger] t[j]).0@ == k;
        lemma_ads_map_at(t, j);
        if j != i {
            lemma_ads_map_at(s, j);
        }
    }
    assert(ads_map(t) =~= ads_map(s).insert(e.0@, e.1@));
}

/// Replacing the watermark at a key's position rebinds that key.
proof fn lemma_marks_map_set(s: Seq<DirectoryWatermark>, i: int, w: DirectoryWatermark)
    requires
        mark_keys_unique(s),
        0 <= i < s.len(),
        mark_key(s[i]) == mark_key(w),
    ensures
        mark_keys_unique(s.update(i, w)),
        marks_map(s.update(i, w)) == marks_map(s).insert(mark_key(w), (w.issued_at, w.vk@)),
{
    let t = s.update(i, w);
    let v = (w.issued_at, w.vk@);
    assert forall|a: int, b: int| 0 <= a < b < t.len() implies mark_key(#[trigger] t[a]) != mark_key(#[trigger] t[b]) by {
        assert(mark_key(t[a]) == mark_key(s[a]) && mark_key(t[b]) == mark_key(s[b]));
    }
    lemma_marks_map_at(s, i);
    assert forall|k: (Seq<u8>, Seq<u8>)| #[trigger] marks_map(t).dom().contains(k) == marks_map(s).insert(mark_key(w), v).dom().contains(k) by {
        if has_mark(t, k) {
            let j = choose|j: int| 0 <= j < t.len() && mark_key(#[trigger] t[j]) == k;
            assert(mark_key(s[j]) == k);
        }
        if has_mark(s, k) {
            let j = choose|j: int| 0 <= j < s.len() && mark_key(#[trigger] s[j]) == k;
            assert(mark_key(t[j]) == k);
        }
    }
    assert forall|k: (Seq<u8>, Seq<u8>)| marks_map(t).dom().contains(k) implies #[trigger] marks_map(t)[k] == marks_map(s).insert(mark_key(w), v)[k] by {
        let j = choose|j: int| 0 <= j < t.len() && mark_key(#[trigger] t[j]) == k;
        lemma_marks_map_at(t, j);
        if j != i {
            lemma_marks_map_at(s, j);
        }
    }
    assert(marks_map(t) =~= marks_map(s).insert(mark_key(w), v));
}

/// Dropping the ad at a code's position removes that code.
proof fn lemma_ads_map_remove(s: Seq<(JoinCode, DirectoryAd)>, i: int)
    requires
        codes_unique(s),
        0 <= i < s.len(),
    ensures
        codes_unique(s.remove(i)),
        ads_map(s.remove(i)) == ads_map(s).remove(s[i].0@),
{
    let t = s.remove(i);
    let k0 = s[i].0@;
    assert forall|a: int, b: int| 0 <= a < b < t.len() implies (#[trigger] t[a]).0@ != (#[trigger] t[b]).0@ by {
        let a2 = if a < i { a } else { a + 1 };
        let b2 = if b < i { b } else { b + 1 };
        assert(t[a] == s[a2] && t[b] == s[b2]);
    }
    assert forall|k: Seq<u8>| #[trigger] ads_map(t).dom().contains(k) == ads_map(s).remove(k0).dom().contains(k) by {
        if has_code(t, k) {
            let j = choose|j: int| 0 <= j < t.len() && (#[trigger] t[j]).0@ == k;
            let j2 = if j < i { j } else { j + 1 };
            assert(t[j] == s[j2]);
            if k == k0 {
                if j2 < i {
                    assert(s[j2].0@ != s[i].0@);
                } else {
                    assert(s[i].0@ != s[j2].0@);
                }
            }
        }
        if has_code(s, k) && k != k0 {
            let j = choose|j: int| 0 <= j < s.len() && (#[trigger] s[j]).0@ == k;
            if j < i {
                assert(t[j] == s[j]);
            } else {
                assert(j != i);
                assert(t[j - 1] == s[j]);
            }
        }
    }
    assert forall|k: Seq<u8>| ads_map(t).dom().contains(k) implies #[trigger] ads_map(t)[k] == ads_map(s).remove(k0)[k] by {
        let j = choose|j: int| 0 <= j < t.len() && (#[trigger] t[j]).0@ == k;
        let j2 = if j < i { j } else { j + 1 };
        assert(t[j] == s[j2]);
        lemma_ads_map_at(t, j);
        lemma_ads_map_at(s, j2);
    }
    assert(ads_map(t) =~= ads_map(s).remove(k0));
}

/// A list with distinct codes has one map entry per ad.
proof fn lemma_ads_map_len(s: Seq<(JoinCode, DirectoryAd)>)
    requires
        codes_unique(s),
    ensures
        ads_map(s).dom().finite(),
        ads_map(s).dom().len() == s.len(),
    decreases s.len(),
{
    if s.len() == 0 {
        assert(ads_map(s).dom() =~= Set::<Seq<u8>>::empty());
    } else {
        let t = s.drop_last();
        let e = s.last();
        assert(t.push(e) =~= s);
        assert forall|i: int, j: int| 0 <= i < j < t.len() implies (#[trigger] t[i]).0@ != (#[trigger] t[j]).0@ by {
            assert(t[i] == s[i] && t[j] == s[j]);
        }
        if has_code(t, e.0@) {
            let i = choose|i: int| 0 <= i < t.len() && (#[trigger] t[i]).0@ == e.0@;
            assert(s[i].0@ != s[s.len() - 1].0@);
        }
        lemma_ads_map_len(t);
        lemma_ads_map_push(t, e);
    }
}

/// A list with distinct keys has one map entry per watermark.
proof fn lemma_marks_map_len(s: Seq<DirectoryWatermark>)
    requires
        mark_keys_unique(s),
    ensures
        marks_map(s).dom().finite(),
        marks_map(s).dom().len() == s.len(),
    decreases s.len(),
{
    if s.len() == 0 {
        assert(marks_map(s).dom() =~= Set::<(Seq<u8>, Seq<u8>)>::empty());
    } else {
        let t = s.drop_last();
        let w = s.last();
        assert(t.push(w) =~= s);
        assert forall|i: int, j: int| 0 <= i < j < t.len() implies mark_key(#[trigger] t[i]) != mark_key(#[trigger] t[j]) by {
            assert(t[i] == s[i] && t[j] == s[j]);
        }
        if has_mark(t, mark_key(w)) {
            let i = choose|i: int| 0 <= i < t.len() && mark_key(#[trigger] t[i]) == mark_key(w);
            assert(mark_key(s[i]) != mark_key(s[s.len() - 1]));
        }
        lemma_marks_map_len(t);
        lemma_marks_map_push(t, w);
    }
}

/// How many ads of a list belong to member `p`.
pub open spec fn seq_peer_count(s: Seq<(JoinCode, DirectoryAd)>, p: Seq<u8>) -> nat
    decreases s.len(),
{
    if s.len() == 0 {
        0
    } else {
        seq_peer_count(s.drop_last(), p) + if s.last().1.peer_id@ == p {
            1nat
        } else {
            0nat
        }
    }
}

proof fn lemma_peer_count(s: Seq<(JoinCode, DirectoryAd)>, p: Seq<u8>)
    requires
        codes_unique(s),
    ensures
        seq_peer_count(s, p) == peer_ad_count(ads_map(s), p),
    decreases s.len(),
{
    let a = ads_map(s);
    let fs = a.dom().filter(|k: Seq<u8>| a[k].peer_id == p);
    if s.len() == 0 {
        assert(fs =~= Set::<Seq<u8>>::empty());
    } else {
        let t = s.drop_last();
        let e = s.last();
        assert(t.push(e) =~= s);
        assert forall|i: int, j: int| 0 <= i < j < t.len() implies (#[trigger] t[i]).0@ != (#[trigger] t[j]).0@ by {
            assert(t[i] == s[i] && t[j] == s[j]);
        }
        if has_code(t, e.0@) {
            let i = choose|i: int| 0 <= i < t.len() && (#[trigger] t[i]).0@ == e.0@;
            assert(s[i].0@ != s[s.len() - 1].0@);
        }
        lemma_peer_count(t, p);
        lemma_ads_map_push(t, e);
        lemma_ads_map_len(t);
        let b = ads_map(t);
        let ft = b.dom().filter(|k: Seq<u8>| b[k].peer_id == p);
        assert(ft.subset_of(b.dom()));
        vstd::set_lib::lemma_len_subset(ft, b.dom());
        assert(!ft.contains(e.0@));
        if e.1.peer_id@ == p {
            assert(fs =~= ft.insert(e.0@));
        } else {
            assert(fs =~= ft);
        }
    }
}

fn prune_ads(ads: &Vec<(JoinCode, DirectoryAd)>, now: u64) -> (r: Vec<(JoinCode, DirectoryAd)>)
    requires
        codes_unique(ads@),
    ensures
        codes_unique(r@),
        ads_map(r@) == live_ads(ads_map(ads@), now),
{
    let mut out: Vec<(JoinCode, DirectoryAd)> = Vec::new();
    let mut i: usize = 0;
    assert(ads_map(out@) =~= live_ads(ads_map(ads@.take(0)), now));
    while i < ads.len()
        invariant
            i <= ads@.len(),
            codes_unique(ads@),
            codes_unique(out@),
            ads_map(out@) == live_ads(ads_map(ads@.take(i as int)), now),
        decreases ads@.len() - i,
    {
        let ghost t = ads@.take(i as int);
        let ghost e = ads@[i as int];
        proof {
            assert(t.push(e) =~= ads@.take(i + 1));
            assert forall|a: int, b: int| 0 <= a < b < t.len() implies (#[trigger] t[a]).0@ != (#[trigger] t[b]).0@ by {
                assert(t[a] == ads@[a] && t[b] == ads@[b]);
            }
            if has_code(t, e.0@) {
                let j = choose|j: int| 0 <= j < t.len() && (#[trigger] t[j]).0@ == e.0@;
                assert(ads@[j].0@ != ads@[i as int].0@);
            }
            lemma_ads_map_push(t, e);
        }
        if !is_expired(ads[i].1.issued_at, now) {
            let copy = (ads[i].0, ads[i].1.duplicate());
            proof {
                if has_code(out@, copy.0@) {
                    let j = choose|j: int| 0 <= j < out@.len() && (#[trigger] out@[j]).0@ == copy.0@;
                    lemma_ads_map_at(out@, j);
                }
                lemma_ads_map_push(out@, copy);
            }
            out.push(copy);
            assert(ads_map(out@) =~= live_ads(ads_map(ads@.take(i + 1)), now));
        } else {
            assert(ads_map(out@) =~= live_ads(ads_map(ads@.take(i + 1)), now));
        }
        i = i + 1;
    }
    assert(ads@.take(ads@.len() as int) =~= ads@);
    out
}

fn copy_mark(w: &DirectoryWatermark) -> (r: DirectoryWatermark)
    ensures
        mark_key(r) == mark_key(*w),
        r.peer_id == w.peer_id,
        r.vault_id@ == w.vault_id@,
        r.issued_at == w.issued_at,
        r.vk@ == w.vk@,
{
    DirectoryWatermark { peer_id: w.peer_id, vault_id: w.vault_id, issued_at: w.issued_at, vk: w.vk.clone() }
}

fn prune_marks(marks: &Vec<DirectoryWatermark>, now: u64) -> (r: Vec<DirectoryWatermark>)
    requires
        mark_keys_unique(marks@),
    ensures
        mark_keys_unique(r@),
        marks_map(r@) == live_marks(marks_map(marks@), now),
{
    let mut out: Vec<DirectoryWatermark> = Vec::new();
    let mut i: usize = 0;
    assert(marks_map(out@) =~= live_marks(marks_map(marks@.take(0)), now));
    while i < marks.len()
        invariant
            i <= marks@.len(),
            mark_keys_unique(marks@),
            mark_keys_unique(out@),
            marks_map(out@) == live_marks(marks_map(marks@.take(i as int)), now),
        decreases marks@.len() - i,
    {
        let ghost t = marks@.take(i as int);
        let ghost w = marks@[i as int];
        proof {
            assert(t.push(w) =~= marks@.take(i + 1));
            assert forall|a: int, b: int| 0 <= a < b < t.len() implies mark_key(#[trigger] t[a]) != mark_key(#[trigger] t[b]) by {
                assert(t[a] == marks@[a] && t[b] == marks@[b]);
            }
            if has_mark(t, mark_key(w)) {
                let j = choose|j: int| 0 <= j < t.len() && mark_key(#[trigger] t[j]) == mark_key(w);
                assert(mark_key(marks@[j]) != mark_key(marks@[i as int]));
            }
            lemma_marks_map_push(t, w);
        }
        if !is_expired(marks[i].issued_at, now) {
            let copy = copy_mark(&marks[i]);
            proof {
                if has_mark(out@, mark_key(copy)) {
                    let j = choose|j: int| 0 <= j < out@.len() && mark_key(#[trigger] out@[j]) == mark_key(copy);
                    lemma_marks_map_at(out@, j);
                }
                lemma_marks_map_push(out@, copy);
            }
            out.push(copy);
            assert(marks_map(out@) =~= live_marks(marks_map(marks@.take(i + 1)), now));
        } else {
            assert(marks_map(out@) =~= live_marks(marks_map(marks@.take(i + 1)), now));
        }
        i = i + 1;
    }
    assert(marks@.take(marks@.len() as int) =~= marks@);
    out
}

fn find_code(ads: &Vec<(JoinCode, DirectoryAd)>, code: &JoinCode) -> (r: Option<usize>)
    ensures
        match r {
            Some(i) => i < ads@.len() && ads@[i as int].0@ == code@,
            None => !has_code(ads@, code@),
        },
{
    let mut i: usize = 0;
    while i < ads.len()
        invariant
            i <= ads@.len(),
            forall|j: int| 0 <= j < i ==> (#[trigger] ads@[j]).0@ != code@,
        decreases ads@.len() - i,
    {
        if crate::wire::bytes_eq(&ads[i].0.0, &code.0) {
            return Some(i);
        }
        i = i + 1;
    }
    None
}

fn find_mark(marks: &Vec<DirectoryWatermark>, peer_id: &PeerId, vault_id: &VaultId) -> (r: Option<usize>)
    ensures
        match r {
            Some(i) => i < marks@.len() && mark_key(marks@[i as int]) == (peer_id@, vault_id@),
            None => !has_mark(marks@, (peer_id@, vault_id@)),
        },
{
    let mut i: usize = 0;
    while i < marks.len()
        invariant
            i <= marks@.len(),
            forall|j: int| 0 <= j < i ==> mark_key(#[trigger] marks@[j]) != (peer_id@, vault_id@),
        decreases marks@.len() - i,
    {
        if bytes32_eq(&marks[i].peer_id.0, &peer_id.0) && bytes32_eq(&marks[i].vault_id.0, &vault_id.0) {
            return Some(i);
        }
        i = i + 1;
    }
    None
}

fn count_peer(ads: &Vec<(JoinCode, DirectoryAd)>, p: &PeerId) -> (r: usize)
    ensures
        r == seq_peer_count(ads@, p@),
{
    let mut n: usize = 0;
    let mut i: usize = 0;
    while i < ads.len()
        invariant
            i <= ads@.len(),
            n <= i,
            n == seq_peer_count(ads@.take(i as int), p@),
        decreases ads@.len() - i,
    {
        assert(ads@.take(i + 1).drop_last() =~= ads@.take(i as int));
        if bytes32_eq(&ads[i].1.peer_id.0, &p.0) {
            n = n + 1;
        }
        i = i + 1;
    }
    assert(ads@.take(ads@.len() as int) =~= ads@);
    n
}

/// Whether a stored directory may be served: every ad signed and backed by
/// a watermark no older than it with the same key, every watermark keyed by
/// its key's member, nothing twice, and every cap kept.
pub open spec fn valid_directory(st: DirectoryState) -> bool {
    &&& forall|i: int| 0 <= i < st.ads@.len() ==> ad_signed((#[trigger] st.ads@[i]).1)
    &&& codes_unique(st.ads@)
    &&& forall|i: int|
        0 <= i < st.watermarks@.len() ==> (#[trigger] st.watermarks@[i]).peer_id@ == sha256_digest(
            peer_id_domain() + st.watermarks@[i].vk@,
        )
    &&& mark_keys_unique(st.watermarks@)
    &&& st.ads@.len() <= MAX_TOTAL_ADS
    &&& st.watermarks@.len() <= MAX_TOTAL_ADS
    &&& forall|i: int| 0 <= i < st.ads@.len() ==> seq_peer_count(st.ads@, (#[trigger] st.ads@[i]).1.peer_id@) <= MAX_ADS_PER_PEER
    &&& forall|i: int|
        0 <= i < st.ads@.len() ==> {
            let key = ((#[trigger] st.ads@[i]).1.peer_id@, st.ads@[i].1.vault_id@);
            &&& marks_map(st.watermarks@).dom().contains(key)
            &&& marks_map(st.watermarks@)[key].0 >= st.ads@[i].1.issued_at
            &&& marks_map(st.watermarks@)[key].1 == st.ads@[i].1.vk@
        }
}

/// Whether a put of `ad` under `code` passes every check after its
/// signature: the code is not another member's, the ad is newer than its
/// watermark, and no cap is exceeded. `a` and `m` are the live ads and
/// watermarks.
pub open spec fn put_allowed(
    a: Map<Seq<u8>, AdV>,
    m: Map<(Seq<u8>, Seq<u8>), (u64, Seq<u8>)>,
    code: Seq<u8>,
    ad: AdV,
) -> bool {
    let key = (ad.peer_id, ad.vault_id);
    &&& !(a.dom().contains(code) && a[code].peer_id != ad.peer_id)
    &&& !(m.dom().contains(key) && ad.issued_at <= m[key].0)
    &&& (m.dom().contains(key) || m.dom().len() < MAX_TOTAL_ADS)
    &&& (a.dom().contains(code) || peer_ad_count(a, ad.peer_id) < MAX_ADS_PER_PEER)
    &&& (a.dom().contains(code) || a.dom().len() < MAX_TOTAL_ADS)
}

/// The signed join-code directory: ads by join code and the replay
/// watermarks, in memory. The owner persists `state()` after each change.
pub struct DirectoryStore {
    ads: Vec<(JoinCode, DirectoryAd)>,
    watermarks: Vec<DirectoryWatermark>,
    failed: bool,
}

impl DirectoryStore {
    /// The ads, by join code.
    pub closed spec fn ads(self) -> Map<Seq<u8>, AdV> {
        ads_map(self.ads@)
    }

    /// The watermarks, by member and vault: newest time and key.
    pub closed spec fn marks(self) -> Map<(Seq<u8>, Seq<u8>), (u64, Seq<u8>)> {
        marks_map(self.watermarks@)
    }

    /// Whether persisting a change failed; the store then refuses service.
    pub closed spec fn failed(self) -> bool {
        self.failed
    }

    pub closed spec fn wf(self) -> bool {
        codes_unique(self.ads@) && mark_keys_unique(self.watermarks@)
    }

    /// An empty directory.
    pub fn new() -> (r: Self)
        ensures
            r.wf(),
            r.ads() == Map::<Seq<u8>, AdV>::empty(),
            r.marks() == Map::<(Seq<u8>, Seq<u8>), (u64, Seq<u8>)>::empty(),
            !r.failed(),
    {
        let r = DirectoryStore { ads: Vec::new(), watermarks: Vec::new(), failed: false };
        assert(r.ads() =~= Map::<Seq<u8>, AdV>::empty());
        assert(r.marks() =~= Map::<(Seq<u8>, Seq<u8>), (u64, Seq<u8>)>::empty());
        r
    }

    /// An independent copy, for staging a change.
    pub fn duplicate(&self) -> (r: Self)
        requires
            self.wf(),
        ensures
            r.wf(),
            r.ads() == self.ads(),
            r.marks() == self.marks(),
            r.failed() == self.failed(),
    {
        let st = self.state();
        DirectoryStore { ads: st.ads, watermarks: st.watermarks, failed: self.failed }
    }

    /// What to persist.
    pub fn state(&self) -> (r: DirectoryState)
        requires
            self.wf(),
        ensures
            codes_unique(r.ads@),
            mark_keys_unique(r.watermarks@),
            ads_map(r.ads@) == self.ads(),
            marks_map(r.watermarks@) == self.marks(),
    {
        let mut ads: Vec<(JoinCode, DirectoryAd)> = Vec::new();
        let mut i: usize = 0;
        while i < self.ads.len()
            invariant
                i <= self.ads@.len(),
                ads@.len() == i,
                forall|j: int| 0 <= j < i ==> (#[trigger] ads@[j]).0@ == self.ads@[j].0@ && ads@[j].1@ == self.ads@[j].1@,
            decreases self.ads@.len() - i,
        {
            ads.push((self.ads[i].0, self.ads[i].1.duplicate()));
            i = i + 1;
        }
        let mut marks: Vec<DirectoryWatermark> = Vec::new();
        let mut k: usize = 0;
        while k < self.watermarks.len()
            invariant
                k <= self.watermarks@.len(),
                marks@.len() == k,
                forall|j: int| 0 <= j < k ==> mark_key(#[trigger] marks@[j]) == mark_key(self.watermarks@[j])
                    && marks@[j].issued_at == self.watermarks@[j].issued_at && marks@[j].vk@ == self.watermarks@[j].vk@,
            decreases self.watermarks@.len() - k,
        {
            marks.push(copy_mark(&self.watermarks[k]));
            k = k + 1;
        }
        proof {
            let s = self.ads@;
            let t = ads@;
            assert forall|a: int, b: int| 0 <= a < b < t.len() implies (#[trigger] t[a]).0@ != (#[trigger] t[b]).0@ by {
                assert(t[a].0@ == s[a].0@ && t[b].0@ == s[b].0@);
            }
            assert forall|key: Seq<u8>| #[trigger] ads_map(t).dom().contains(key) == ads_map(s).dom().contains(key) by {
                if has_code(t, key) {
                    let j = choose|j: int| 0 <= j < t.len() && (#[trigger] t[j]).0@ == key;
                    assert(s[j].0@ == key);
                }
                if has_code(s, key) {
                    let j = choose|j: int| 0 <= j < s.len() && (#[trigger] s[j]).0@ == key;
                    assert(t[j].0@ == key);
                }
            }
            assert forall|key: Seq<u8>| ads_map(t).dom().contains(key) implies #[trigger] ads_map(t)[key] == ads_map(s)[key] by {
                let j = choose|j: int| 0 <= j < t.len() && (#[trigger] t[j]).0@ == key;
                lemma_ads_map_at(t, j);
                lemma_ads_map_at(s, j);
            }
            assert(ads_map(t) =~= ads_map(s));
            let ms = self.watermarks@;
            let mt = marks@;
            assert forall|a: int, b: int| 0 <= a < b < mt.len() implies mark_key(#[trigger] mt[a]) != mark_key(#[trigger] mt[b]) by {
                assert(mark_key(mt[a]) == mark_key(ms[a]) && mark_key(mt[b]) == mark_key(ms[b]));
            }
            assert forall|key: (Seq<u8>, Seq<u8>)| #[trigger] marks_map(mt).dom().contains(key) == marks_map(ms).dom().contains(key) by {
                if has_mark(mt, key) {
                    let j = choose|j: int| 0 <= j < mt.len() && mark_key(#[trigger] mt[j]) == key;
                    assert(mark_key(ms[j]) == key);
                }
                if has_mark(ms, key) {
                    let j = choose|j: int| 0 <= j < ms.len() && mark_key(#[trigger] ms[j]) == key;
                    assert(mark_key(mt[j]) == key);
                }
            }
            assert forall|key: (Seq<u8>, Seq<u8>)| marks_map(mt).dom().contains(key) implies #[trigger] marks_map(mt)[key] == marks_map(ms)[key] by {
                let j = choose|j: int| 0 <= j < mt.len() && mark_key(#[trigger] mt[j]) == key;
                lemma_marks_map_at(mt, j);
                lemma_marks_map_at(ms, j);
            }
            assert(marks_map(mt) =~= marks_map(ms));
        }
        DirectoryState { ads, watermarks: marks }
    }

    /// Records that persisting a change failed: the store stops serving
    /// until it is reopened.
    pub fn mark_failed(&mut self)
        requires
            old(self).wf(),
        ensures
            final(self).wf(),
            final(self).ads() == old(self).ads(),
            final(self).marks() == old(self).marks(),
            final(self).failed(),
    {
        self.failed = true;
    }

    pub fn require_healthy(&self) -> (r: Result<()>)
        ensures
            r is Ok <==> !self.failed(),
            r matches Err(e) ==> e is State,
    {
        if self.failed {
            return Err(Error::State("directory persistence failed; reopen required"));
        }
        Ok(())
    }

    /// Stores `ad` under `code`, after dropping expired records. The ad must
    /// be current and signed, the code free or already the same member's,
    /// the ad newer than the member's watermark for its vault, and every cap
    /// kept; the watermark then moves to the ad's time.
    #[verifier::rlimit(30)]
    pub fn put(&mut self, code: JoinCode, ad: DirectoryAd, now: u64) -> (r: Result<()>)
        requires
            old(self).wf(),
        ensures
            final(self).wf(),
            ({
                let a = live_ads(old(self).ads(), now);
                let m = live_marks(old(self).marks(), now);
                let key = (ad.peer_id@, ad.vault_id@);
                match r {
                    Ok(()) => {
                        &&& !old(self).failed()
                        &&& !too_far_ahead(ad.issued_at, now) && !expired(ad.issued_at, now) && ad_signed(ad)
                        &&& put_allowed(a, m, code@, ad@)
                        &&& final(self).ads() == a.insert(code@, ad@)
                        &&& final(self).marks() == m.insert(key, (ad.issued_at, ad.vk@))
                        &&& !final(self).failed()
                    },
                    Err(e) => {
                        &&& final(self).ads() == old(self).ads()
                        &&& final(self).marks() == old(self).marks()
                        &&& final(self).failed() == old(self).failed()
                        &&& if old(self).failed() {
                            e is State
                        } else if too_far_ahead(ad.issued_at, now) || expired(ad.issued_at, now) || !ad_signed(ad) {
                            e is InvalidInput || e is AuthenticationFailed
                        } else if a.dom().contains(code@) && a[code@].peer_id != ad.peer_id@ {
                            e is AuthenticationFailed
                        } else if m.dom().contains(key) && ad.issued_at <= m[key].0 {
                            e is ReplayRejected
                        } else {
                            e is InvalidInput && !put_allowed(a, m, code@, ad@)
                        }
                    },
                }
            }),
    {
        self.require_healthy()?;
        ad.verify(now)?;
        let ghost a = live_ads(self.ads(), now);
        let ghost m = live_marks(self.marks(), now);
        let ghost key = (ad.peer_id@, ad.vault_id@);
        let mut ads = prune_ads(&self.ads, now);
        let mut marks = prune_marks(&self.watermarks, now);
        proof {
            lemma_ads_map_len(ads@);
            lemma_marks_map_len(marks@);
            lemma_peer_count(ads@, ad.peer_id@);
        }
        let code_at = find_code(&ads, &code);
        if let Some(i) = code_at {
            proof {
                lemma_ads_map_at(ads@, i as int);
            }
            if !bytes32_eq(&ads[i].1.peer_id.0, &ad.peer_id.0) {
                return Err(Error::AuthenticationFailed);
            }
        }
        let mark_at = find_mark(&marks, &ad.peer_id, &ad.vault_id);
        match mark_at {
            Some(j) => {
                proof {
                    lemma_marks_map_at(marks@, j as int);
                }
                if ad.issued_at <= marks[j].issued_at {
                    return Err(Error::ReplayRejected);
                }
            },
            None => {
                if marks.len() >= MAX_TOTAL_ADS {
                    return Err(Error::InvalidInput("directory watermark cap reached"));
                }
            },
        }
        let replaces = code_at.is_some();
        let count = count_peer(&ads, &ad.peer_id);
        if !replaces && count >= MAX_ADS_PER_PEER {
            return Err(Error::InvalidInput("directory peer ad cap reached"));
        }
        if !replaces && ads.len() >= MAX_TOTAL_ADS {
            return Err(Error::InvalidInput("directory ad cap reached"));
        }
        let ghost view = ad@;
        let mark = DirectoryWatermark { peer_id: ad.peer_id, vault_id: ad.vault_id, issued_at: ad.issued_at, vk: ad.vk.clone() };
        match mark_at {
            Some(j) => {
                proof {
                    lemma_marks_map_set(marks@, j as int, mark);
                }
                marks.set(j, mark);
            },
            None => {
                proof {
                    lemma_marks_map_push(marks@, mark);
                }
                marks.push(mark);
            },
        }
        let entry = (code, ad);
        match code_at {
            Some(i) => {
                proof {
                    lemma_ads_map_set(ads@, i as int, entry);
                }
                ads.set(i, entry);
            },
            None => {
                proof {
                    lemma_ads_map_push(ads@, entry);
                }
                ads.push(entry);
            },
        }
        self.ads = ads;
        self.watermarks = marks;
        Ok(())
    }

    /// Drops expired records and returns the ad under `code`, if any, with
    /// whether anything was dropped (and so needs persisting).
    pub fn lookup(&mut self, code: &JoinCode, now: u64) -> (r: Result<(Option<DirectoryAd>, bool)>)
        requires
            old(self).wf(),
        ensures
            final(self).wf(),
            match r {
                Ok((found, changed)) => {
                    &&& !old(self).failed()
                    &&& !final(self).failed()
                    &&& final(self).ads() == live_ads(old(self).ads(), now)
                    &&& final(self).marks() == live_marks(old(self).marks(), now)
                    &&& changed == (final(self).ads().dom().len() != old(self).ads().dom().len()
                        || final(self).marks().dom().len() != old(self).marks().dom().len())
                    &&& match found {
                        Some(ad) => final(self).ads().dom().contains(code@) && ad@ == final(self).ads()[code@],
                        None => !final(self).ads().dom().contains(code@),
                    }
                },
                Err(e) => e is State && old(self).failed() && final(self).ads() == old(self).ads()
                    && final(self).marks() == old(self).marks() && final(self).failed(),
            },
    {
        self.require_healthy()?;
        let ads = prune_ads(&self.ads, now);
        let marks = prune_marks(&self.watermarks, now);
        proof {
            lemma_ads_map_len(ads@);
            lemma_marks_map_len(marks@);
            lemma_ads_map_len(self.ads@);
            lemma_marks_map_len(self.watermarks@);
        }
        let changed = ads.len() != self.ads.len() || marks.len() != self.watermarks.len();
        self.ads = ads;
        self.watermarks = marks;
        match find_code(&self.ads, code) {
            Some(i) => {
                proof {
                    lemma_ads_map_at(self.ads@, i as int);
                }
                Ok((Some(self.ads[i].1.duplicate()), changed))
            },
            None => Ok((None, changed)),
        }
    }

    /// Drops the ad under the request's join code, after dropping expired
    /// records. The request must come from the code's member and vault,
    /// carry a watermark, be signed by the watermark's key and be newer than
    /// it; the watermark then moves to the request's time.
    #[verifier::rlimit(30)]
    pub fn forget(&mut self, request: &DirForget, now: u64) -> (r: Result<()>)
        requires
            old(self).wf(),
        ensures
            final(self).wf(),
            ({
                let a = live_ads(old(self).ads(), now);
                let m = live_marks(old(self).marks(), now);
                let c = request.join_code@;
                let key = (request.peer_id@, request.vault_id@);
                let foreign = a.dom().contains(c) && (a[c].peer_id != request.peer_id@ || a[c].vault_id
                    != request.vault_id@);
                match r {
                    Ok(()) => {
                        &&& !old(self).failed()
                        &&& !foreign
                        &&& m.dom().contains(key)
                        &&& forget_signed(*request, m[key].1, now)
                        &&& request.issued_at > m[key].0
                        &&& final(self).ads() == a.remove(c)
                        &&& final(self).marks() == m.insert(key, (request.issued_at, m[key].1))
                        &&& !final(self).failed()
                    },
                    Err(e) => {
                        &&& final(self).ads() == old(self).ads()
                        &&& final(self).marks() == old(self).marks()
                        &&& final(self).failed() == old(self).failed()
                        &&& if old(self).failed() {
                            e is State
                        } else if foreign || !m.dom().contains(key) {
                            e is AuthenticationFailed
                        } else if !forget_signed(*request, m[key].1, now) {
                            e is InvalidInput || e is AuthenticationFailed
                        } else {
                            e is ReplayRejected && request.issued_at <= m[key].0
                        }
                    },
                }
            }),
    {
        self.require_healthy()?;
        let mut ads = prune_ads(&self.ads, now);
        let mut marks = prune_marks(&self.watermarks, now);
        let code_at = find_code(&ads, &request.join_code);
        if let Some(i) = code_at {
            proof {
                lemma_ads_map_at(ads@, i as int);
            }
            if !bytes32_eq(&ads[i].1.peer_id.0, &request.peer_id.0) || !bytes32_eq(
                &ads[i].1.vault_id.0,
                &request.vault_id.0,
            ) {
                return Err(Error::AuthenticationFailed);
            }
        }
        let j = match find_mark(&marks, &request.peer_id, &request.vault_id) {
            Some(j) => j,
            None => {
                return Err(Error::AuthenticationFailed);
            },
        };
        proof {
            lemma_marks_map_at(marks@, j as int);
        }
        request.verify(marks[j].vk.as_slice(), now)?;
        if request.issued_at <= marks[j].issued_at {
            return Err(Error::ReplayRejected);
        }
        let mark = DirectoryWatermark {
            peer_id: request.peer_id,
            vault_id: request.vault_id,
            issued_at: request.issued_at,
            vk: marks[j].vk.clone(),
        };
        proof {
            lemma_marks_map_set(marks@, j as int, mark);
        }
        marks.set(j, mark);
        if let Some(i) = code_at {
            proof {
                lemma_ads_map_remove(ads@, i as int);
            }
            ads.remove(i);
        } else {
            assert(ads_map(ads@) =~= ads_map(ads@).remove(request.join_code@));
        }
        self.ads = ads;
        self.watermarks = marks;
        Ok(())
    }

    /// The directory a stored state describes, if it may be served.
    #[verifier::rlimit(30)]
    pub fn from_state(state: DirectoryState) -> (r: Result<Self>)
        ensures
            match r {
                Ok(store) => valid_directory(state) && store.wf() && store.ads() == ads_map(state.ads@)
                    && store.marks() == marks_map(state.watermarks@) && !store.failed(),
                Err(e) => !valid_directory(state) && (e is InvalidInput || e is AuthenticationFailed),
            },
    {
        let ads = state.ads;
        let watermarks = state.watermarks;
        let mut i: usize = 0;
        while i < ads.len()
            invariant
                i <= ads@.len(),
                ads@ == state.ads@,
                forall|k: int| 0 <= k < i ==> ad_signed((#[trigger] ads@[k]).1),
                codes_unique(ads@.take(i as int)),
            decreases ads@.len() - i,
        {
            ads[i].1.verify_signature()?;
            let mut j: usize = 0;
            while j < i
                invariant
                    j <= i < ads@.len(),
                    ads@ == state.ads@,
                    forall|k: int| 0 <= k < j ==> (#[trigger] ads@[k]).0@ != ads@[i as int].0@,
                decreases i - j,
            {
                if crate::wire::bytes_eq(&ads[j].0.0, &ads[i].0.0) {
                    proof {
                        assert(ads@[j as int].0@ == ads@[i as int].0@);
                    }
                    return Err(Error::InvalidInput("duplicate directory join code"));
                }
                j = j + 1;
            }
            proof {
                let t = ads@.take(i + 1);
                assert forall|a: int, b: int| 0 <= a < b < t.len() implies (#[trigger] t[a]).0@ != (#[trigger] t[b]).0@ by {
                    if b < i {
                        assert(ads@.take(i as int)[a] == t[a] && ads@.take(i as int)[b] == t[b]);
                    }
                }
            }
            i = i + 1;
        }
        assert(ads@.take(ads@.len() as int) =~= ads@);
        let mut w: usize = 0;
        while w < watermarks.len()
            invariant
                w <= watermarks@.len(),
                watermarks@ == state.watermarks@,
                forall|k: int|
                    0 <= k < w ==> (#[trigger] watermarks@[k]).peer_id@ == sha256_digest(
                        peer_id_domain() + watermarks@[k].vk@,
                    ),
                mark_keys_unique(watermarks@.take(w as int)),
            decreases watermarks@.len() - w,
        {
            let expected = peer_id(watermarks[w].vk.as_slice());
            if !bytes32_eq(&watermarks[w].peer_id.0, &expected.0) {
                return Err(Error::AuthenticationFailed);
            }
            let mut j: usize = 0;
            while j < w
                invariant
                    j <= w < watermarks@.len(),
                    watermarks@ == state.watermarks@,
                    forall|k: int| 0 <= k < j ==> mark_key(#[trigger] watermarks@[k]) != mark_key(watermarks@[w as int]),
                decreases w - j,
            {
                if bytes32_eq(&watermarks[j].peer_id.0, &watermarks[w].peer_id.0) && bytes32_eq(
                    &watermarks[j].vault_id.0,
                    &watermarks[w].vault_id.0,
                ) {
                    proof {
                        assert(mark_key(watermarks@[j as int]) == mark_key(watermarks@[w as int]));
                    }
                    return Err(Error::InvalidInput("duplicate directory watermark"));
                }
                j = j + 1;
            }
            proof {
                let t = watermarks@.take(w + 1);
                assert forall|a: int, b: int| 0 <= a < b < t.len() implies mark_key(#[trigger] t[a]) != mark_key(#[trigger] t[b]) by {
                    if b < w {
                        assert(watermarks@.take(w as int)[a] == t[a] && watermarks@.take(w as int)[b] == t[b]);
                    }
                }
            }
            w = w + 1;
        }
        assert(watermarks@.take(watermarks@.len() as int) =~= watermarks@);
        if ads.len() > MAX_TOTAL_ADS || watermarks.len() > MAX_TOTAL_ADS {
            return Err(Error::InvalidInput("directory store exceeds entry cap"));
        }
        let mut c: usize = 0;
        while c < ads.len()
            invariant
                c <= ads@.len(),
                ads@ == state.ads@,
                forall|k: int| 0 <= k < c ==> seq_peer_count(ads@, (#[trigger] ads@[k]).1.peer_id@) <= MAX_ADS_PER_PEER,
            decreases ads@.len() - c,
        {
            if count_peer(&ads, &ads[c].1.peer_id) > MAX_ADS_PER_PEER {
                return Err(Error::InvalidInput("directory peer ad cap exceeded"));
            }
            c = c + 1;
        }
        let mut k: usize = 0;
        while k < ads.len()
            invariant
                k <= ads@.len(),
                ads@ == state.ads@,
                watermarks@ == state.watermarks@,
                mark_keys_unique(watermarks@),
                forall|x: int|
                    0 <= x < k ==> {
                        let key = ((#[trigger] ads@[x]).1.peer_id@, ads@[x].1.vault_id@);
                        &&& marks_map(watermarks@).dom().contains(key)
                        &&& marks_map(watermarks@)[key].0 >= ads@[x].1.issued_at
                        &&& marks_map(watermarks@)[key].1 == ads@[x].1.vk@
                    },
            decreases ads@.len() - k,
        {
            let j = match find_mark(&watermarks, &ads[k].1.peer_id, &ads[k].1.vault_id) {
                Some(j) => j,
                None => {
                    return Err(Error::InvalidInput("directory ad has no watermark"));
                },
            };
            proof {
                lemma_marks_map_at(watermarks@, j as int);
            }
            if watermarks[j].issued_at < ads[k].1.issued_at || !crate::wire::bytes_eq(
                watermarks[j].vk.as_slice(),
                ads[k].1.vk.as_slice(),
            ) {
                return Err(Error::InvalidInput("directory ad watermark mismatch"));
            }
            k = k + 1;
        }
        Ok(DirectoryStore { ads, watermarks, failed: false })
    }
}

/// Once the directory has accepted an ad, an ad from the same member for the
/// same vault that is no newer is refused as a replay for as long as the
/// watermark it left is live.
pub proof fn law_directory_refuses_replayed_put(
    m: Map<(Seq<u8>, Seq<u8>), (u64, Seq<u8>)>,
    accepted: AdV,
    replayed: AdV,
    a: Map<Seq<u8>, AdV>,
    code: Seq<u8>,
    now: u64,
)
    requires
        replayed.peer_id == accepted.peer_id,
        replayed.vault_id == accepted.vault_id,
        replayed.issued_at <= accepted.issued_at,
        !expired(accepted.issued_at, now),
    ensures
        ({
            let after = live_marks(m.insert((accepted.peer_id, accepted.vault_id), (accepted.issued_at, accepted.vk)), now);
            let key = (replayed.peer_id, replayed.vault_id);
            &&& after.dom().contains(key)
            &&& replayed.issued_at <= after[key].0
            &&& !put_allowed(a, after, code, replayed)
        }),
{
}

/// An accepted ad is what a later lookup of its join code returns, until it
/// expires.
pub proof fn law_directory_lookup_finds_put_ad(a: Map<Seq<u8>, AdV>, code: Seq<u8>, ad: AdV, now: u64)
    requires
        !expired(ad.issued_at, now),
    ensures
        live_ads(a.insert(code, ad), now).dom().contains(code),
        live_ads(a.insert(code, ad), now)[code] == ad,
{
}

/// Once a forget is accepted, a request from the same member for the same
/// vault that is no newer is refused as a replay while the watermark lives.
pub proof fn law_directory_refuses_replayed_forget(
    m: Map<(Seq<u8>, Seq<u8>), (u64, Seq<u8>)>,
    accepted: DirForget,
    vk: Seq<u8>,
    replayed: DirForget,
    now: u64,
)
    requires
        replayed.peer_id@ == accepted.peer_id@,
        replayed.vault_id@ == accepted.vault_id@,
        replayed.issued_at <= accepted.issued_at,
        !expired(accepted.issued_at, now),
    ensures
        ({
            let key = (accepted.peer_id@, accepted.vault_id@);
            let after = live_marks(m.insert(key, (accepted.issued_at, vk)), now);
            after.dom().contains(key) && replayed.issued_at <= after[key].0
        }),
{
}

/// An accepted put keeps every cap: a member holds at most its quota of
/// ads, and the directory at most its total.
pub proof fn law_directory_put_keeps_caps(
    a: Map<Seq<u8>, AdV>,
    m: Map<(Seq<u8>, Seq<u8>), (u64, Seq<u8>)>,
    code: Seq<u8>,
    ad: AdV,
)
    requires
        a.dom().finite(),
        a.dom().len() <= MAX_TOTAL_ADS,
        peer_ad_count(a, ad.peer_id) <= MAX_ADS_PER_PEER,
        put_allowed(a, m, code, ad),
    ensures
        a.insert(code, ad).dom().len() <= MAX_TOTAL_ADS,
        peer_ad_count(a.insert(code, ad), ad.peer_id) <= MAX_ADS_PER_PEER,
{
    let b = a.insert(code, ad);
    let p = ad.peer_id;
    let fa = a.dom().filter(|k: Seq<u8>| a[k].peer_id == p);
    let fb = b.dom().filter(|k: Seq<u8>| b[k].peer_id == p);
    assert(fa.subset_of(a.dom()));
    vstd::set_lib::lemma_len_subset(fa, a.dom());
    if a.dom().contains(code) {
        assert(b.dom() =~= a.dom());
        assert(fb =~= fa);
    } else {
        assert(b.dom() =~= a.dom().insert(code));
        assert(fb =~= fa.insert(code));
    }
}

} // verus!
