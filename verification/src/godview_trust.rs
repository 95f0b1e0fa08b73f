//! Per-packet origin authentication, integrity, freshness and
//! capability-scoped authorisation.
//!
//! A packet is signed over `payload ‖ be64(issued_at_ns) ‖ capability bytes`
//! with Ed25519. Verification checks, in order: the signing key is trusted,
//! the signature is valid, the packet is fresh, the capability (if any) is
//! signed by a trusted issuer and unexpired, and its scope is among the
//! required scopes. The outcome is an exact function of the packet bytes,
//! the trusted key set and the clock reading.

use vstd::prelude::*;
use ed25519_dalek::Signer;
use ed25519_dalek::Verifier;

verus! {

use crate::fixed::abs_i;

/// The Ed25519 public key derived from 32 secret-key bytes.
pub uninterp spec fn ed_pub(sk: Seq<u8>) -> Seq<u8>;

/// The Ed25519 signature over a message by a secret key (RFC 8032 signing is
/// deterministic in both).
pub uninterp spec fn ed_sig(sk: Seq<u8>, msg: Seq<u8>) -> Seq<u8>;

/// Whether a signature verifies under a public key for a message.
pub uninterp spec fn ed_verifies(pk: Seq<u8>, msg: Seq<u8>, sig: Seq<u8>) -> bool;

/// Relies on ed25519_dalek::SigningKey::verifying_key, a pure function of the
/// secret key bytes; to_bytes yields its 32-byte encoding.
#[verifier::external_body]
fn ed_public_exec(sk: &Vec<u8>) -> (r: Vec<u8>)
    requires
        sk@.len() == 32,
    ensures
        r@ == ed_pub(sk@),
        r@.len() == 32,
{
    let b: [u8; 32] = sk.as_slice().try_into().unwrap();
    let key = ed25519_dalek::SigningKey::from_bytes(&b);
    key.verifying_key().to_bytes().to_vec()
}

/// Relies on ed25519_dalek's `Signer::sign` for SigningKey: RFC 8032 signing
/// is deterministic in (secret key, message), yields 64 bytes, and the
/// signature verifies under the key returned by verifying_key.
#[verifier::external_body]
fn ed_sign_exec(sk: &Vec<u8>, msg: &Vec<u8>) -> (r: Vec<u8>)
    requires
        sk@.len() == 32,
    ensures
        r@ == ed_sig(sk@, msg@),
        r@.len() == 64,
        ed_verifies(ed_pub(sk@), msg@, r@),
{
    let b: [u8; 32] = sk.as_slice().try_into().unwrap();
    let key = ed25519_dalek::SigningKey::from_bytes(&b);
    key.sign(msg.as_slice()).to_bytes().to_vec()
}

/// Relies on ed25519_dalek's `VerifyingKey::from_bytes` and
/// `Verifier::verify`: acceptance is a function of (public key bytes,
/// message, signature); bytes that decode to no valid key accept nothing.
#[verifier::external_body]
fn ed_verify_exec(pk: &Vec<u8>, msg: &Vec<u8>, sig: &Vec<u8>) -> (r: bool)
    requires
        pk@.len() == 32,
        sig@.len() == 64,
    ensures
        r == ed_verifies(pk@, msg@, sig@),
{
    let kb: [u8; 32] = pk.as_slice().try_into().unwrap();
    let sb: [u8; 64] = sig.as_slice().try_into().unwrap();
    match ed25519_dalek::VerifyingKey::from_bytes(&kb) {
        Ok(k) => k.verify(msg.as_slice(), &ed25519_dalek::Signature::from_bytes(&sb)).is_ok(),
        Err(_) => false,
    }
}

/// The big-endian bytes of a 64-bit value.
pub open spec fn spec_be64(v: u64) -> Seq<u8> {
    seq![
        ((v / 0x100000000000000u64) % 256) as u8,
        ((v / 0x1000000000000u64) % 256) as u8,
        ((v / 0x10000000000u64) % 256) as u8,
        ((v / 0x100000000u64) % 256) as u8,
        ((v / 0x1000000u64) % 256) as u8,
        ((v / 0x10000u64) % 256) as u8,
        ((v / 0x100u64) % 256) as u8,
        (v % 256) as u8,
    ]
}

/// Writes a 64-bit value big-endian.
pub fn be64_exec(v: u64) -> (r: Vec<u8>)
    ensures
        r@ == spec_be64(v),
        r@.len() == 8,
{
    let mut r: Vec<u8> = Vec::new();
    r.push(((v / 0x100000000000000u64) % 256) as u8);
    r.push(((v / 0x1000000000000u64) % 256) as u8);
    r.push(((v / 0x10000000000u64) % 256) as u8);
    r.push(((v / 0x100000000u64) % 256) as u8);
    r.push(((v / 0x1000000u64) % 256) as u8);
    r.push(((v / 0x10000u64) % 256) as u8);
    r.push(((v / 0x100u64) % 256) as u8);
    r.push((v % 256) as u8);
    proof {
        assert(r@ =~= spec_be64(v));
    }
    r
}

/// A signed grant: the holder of the subject key may emit packets under
/// `scope` until `expiry_ns`, vouched for by the issuer's signature over
/// (subject key ‖ scope ‖ expiry).
pub struct Capability {
    /// Scope tag the grant covers.
    pub scope: Vec<u8>,
    /// Expiry, nanoseconds since the epoch.
    pub expiry_ns: i64,
    /// The issuer's public key (32 bytes).
    pub issuer_pk: Vec<u8>,
    /// The issuer's signature (64 bytes).
    pub issuer_sig: Vec<u8>,
}

/// A payload with provenance: signing key identifier, signature, issue time
/// and optional capability.
pub struct SignedPacket {
    /// The signed payload bytes.
    pub payload: Vec<u8>,
    /// The signer's public key (32 bytes), identifying the key that signed.
    pub key_id: Vec<u8>,
    /// Ed25519 signature (64 bytes) over payload ‖ be64(issued_at) ‖
    /// capability bytes.
    pub signature: Vec<u8>,
    /// Issue time, nanoseconds since the epoch.
    pub issued_at_ns: i64,
    /// Optional capability grant carried with the packet.
    pub capability: Option<Capability>,
}

/// Why a packet was rejected.
#[derive(Debug, Clone, Copy, PartialEq, Eq, Structural)]
pub enum AuthError {
    /// The signature does not verify over the packet's bytes.
    BadSignature,
    /// The issue time lies outside the freshness window around `now`.
    Stale,
    /// The signing key is not in the trusted set.
    UnknownKey,
    /// The capability is malformed, its issuer untrusted, or its signature
    /// invalid.
    CapabilityInvalid,
    /// The capability expired before `now`.
    CapabilityExpired,
    /// The scope granted is not among the required scopes, or a required
    /// scope is missing because the packet carries no capability.
    ScopeMissing,
}

/// The capability's wire bytes as covered by the packet signature:
/// be64(scope length) ‖ scope ‖ be64(expiry) ‖ issuer key ‖ issuer signature.
pub open spec fn spec_cap_bytes(c: Capability) -> Seq<u8> {
    spec_be64(c.scope@.len() as u64) + c.scope@ + spec_be64(c.expiry_ns as u64) + c.issuer_pk@
        + c.issuer_sig@
}

/// The bytes a packet signature covers.
pub open spec fn spec_packet_msg(payload: Seq<u8>, issued_at_ns: i64, cap: Option<Capability>)
    -> Seq<u8> {
    payload + spec_be64(issued_at_ns as u64) + match cap {
        Some(c) => spec_cap_bytes(c),
        None => Seq::empty(),
    }
}

/// The bytes a capability's issuer signature covers: the subject key it
/// empowers, the scope, and the expiry.
pub open spec fn spec_cap_msg(subject_pk: Seq<u8>, c: Capability) -> Seq<u8> {
    subject_pk + c.scope@ + spec_be64(c.expiry_ns as u64)
}

/// Builds the capability wire bytes.
pub fn cap_bytes_exec(c: &Capability) -> (r: Vec<u8>)
    ensures
        r@ == spec_cap_bytes(*c),
{
    proof {
        vstd::std_specs::vec::axiom_spec_len(&c.scope);
    }
    let mut r: Vec<u8> = be64_exec(c.scope.len() as u64);
    r.extend_from_slice(c.scope.as_slice());
    let e = be64_exec(c.expiry_ns as u64);
    r.extend_from_slice(e.as_slice());
    r.extend_from_slice(c.issuer_pk.as_slice());
    r.extend_from_slice(c.issuer_sig.as_slice());
    proof {
        assert(r@ =~= spec_cap_bytes(*c));
    }
    r
}

/// Builds the bytes a packet signature covers.
pub fn packet_msg_exec(payload: &Vec<u8>, issued_at_ns: i64, cap: &Option<Capability>) -> (r: Vec<
    u8,
>)
    ensures
        r@ == spec_packet_msg(payload@, issued_at_ns, *cap),
{
    let mut r: Vec<u8> = Vec::new();
    r.extend_from_slice(payload.as_slice());
    let t = be64_exec(issued_at_ns as u64);
    r.extend_from_slice(t.as_slice());
    match cap {
        Some(c) => {
            let cb = cap_bytes_exec(c);
            r.extend_from_slice(cb.as_slice());
        },
        None => {},
    }
    proof {
        assert(r@ =~= spec_packet_msg(payload@, issued_at_ns, *cap));
    }
    r
}

/// Builds the bytes a capability's issuer signs.
pub fn cap_msg_exec(subject_pk: &Vec<u8>, c: &Capability) -> (r: Vec<u8>)
    ensures
        r@ == spec_cap_msg(subject_pk@, *c),
{
    let mut r: Vec<u8> = Vec::new();
    r.extend_from_slice(subject_pk.as_slice());
    r.extend_from_slice(c.scope.as_slice());
    let e = be64_exec(c.expiry_ns as u64);
    r.extend_from_slice(e.as_slice());
    proof {
        assert(r@ =~= spec_cap_msg(subject_pk@, *c));
    }
    r
}

/// Byte-string equality.
pub fn bytes_eq(a: &Vec<u8>, b: &Vec<u8>) -> (r: bool)
    ensures
        r == (a@ == b@),
{
    if a.len() != b.len() {
        proof {
            assert(a@.len() != b@.len());
        }
        return false;
    }
    let mut i: usize = 0;
    while i < a.len()
        invariant
            i <= a.len(),
            a.len() == b.len(),
            forall|j: int| 0 <= j < i ==> a@[j] == b@[j],
        decreases a.len() - i,
    {
        if a[i] != b[i] {
            return false;
        }
        i = i + 1;
    }
    proof {
        assert(a@ =~= b@);
    }
    true
}

/// Whether a byte string is listed.
pub open spec fn bytes_listed(xs: Seq<Vec<u8>>, x: Seq<u8>) -> bool {
    exists|i: int| 0 <= i < xs.len() && (#[trigger] xs[i])@ == x
}

/// Linear membership scan.
pub fn bytes_listed_exec(xs: &Vec<Vec<u8>>, x: &Vec<u8>) -> (r: bool)
    ensures
        r == bytes_listed(xs@, x@),
{
    let mut i: usize = 0;
    while i < xs.len()
        invariant
            i <= xs.len(),
            forall|j: int| 0 <= j < i ==> (#[trigger] xs@[j])@ != x@,
        decreases xs.len() - i,
    {
        if bytes_eq(&xs[i], x) {
            return true;
        }
        i = i + 1;
    }
    false
}

/// Whether a capability is well formed for verification: 32-byte issuer key,
/// 64-byte issuer signature, scope length encodable.
pub open spec fn cap_wf(c: Capability) -> bool {
    c.issuer_pk@.len() == 32 && c.issuer_sig@.len() == 64 && c.scope@.len() <= u64::MAX
}

/// The exact verification outcome: the checks in their fixed order, each
/// error naming the first that failed.
pub open spec fn spec_verify(
    p: SignedPacket,
    keys: Seq<Vec<u8>>,
    scopes: Seq<Vec<u8>>,
    now_ns: i64,
    window_ns: i64,
) -> Result<Seq<u8>, AuthError> {
    if !bytes_listed(keys, p.key_id@) {
        Err(AuthError::UnknownKey)
    } else if p.key_id@.len() != 32 || p.signature@.len() != 64 || !ed_verifies(
        p.key_id@,
        spec_packet_msg(p.payload@, p.issued_at_ns, p.capability),
        p.signature@,
    ) {
        Err(AuthError::BadSignature)
    } else if abs_i(now_ns - p.issued_at_ns) > window_ns {
        Err(AuthError::Stale)
    } else {
        match p.capability {
            None => if scopes.len() > 0 {
                Err(AuthError::ScopeMissing)
            } else {
                Ok(p.payload@)
            },
            Some(c) => {
                if c.issuer_pk@.len() != 32 || c.issuer_sig@.len() != 64 || !bytes_listed(
                    keys,
                    c.issuer_pk@,
                ) || !ed_verifies(c.issuer_pk@, spec_cap_msg(p.key_id@, c), c.issuer_sig@) {
                    Err(AuthError::CapabilityInvalid)
                } else if c.expiry_ns < now_ns {
                    Err(AuthError::CapabilityExpired)
                } else if scopes.len() > 0 && !bytes_listed(scopes, c.scope@) {
                    Err(AuthError::ScopeMissing)
                } else {
                    Ok(p.payload@)
                }
            },
        }
    }
}

impl SignedPacket {
    /// Signs a payload at clock reading `now_ns`, attaching the capability's
    /// bytes to the signed message.
    pub fn new(payload: Vec<u8>, sk: &Vec<u8>, capability: Option<Capability>, now_ns: i64) -> (r:
        Self)
        requires
            sk@.len() == 32,
        ensures
            r.payload@ == payload@,
            r.issued_at_ns == now_ns,
            r.capability == capability,
            r.key_id@ == ed_pub(sk@),
            r.key_id@.len() == 32,
            r.signature@ == ed_sig(sk@, spec_packet_msg(payload@, now_ns, capability)),
            r.signature@.len() == 64,
            ed_verifies(
                r.key_id@,
                spec_packet_msg(r.payload@, r.issued_at_ns, r.capability),
                r.signature@,
            ),
    {
        let msg = packet_msg_exec(&payload, now_ns, &capability);
        let key_id = ed_public_exec(sk);
        let signature = ed_sign_exec(sk, &msg);
        SignedPacket { payload, key_id, signature, issued_at_ns: now_ns, capability }
    }
}

/// The trusted key set, freshness window and required scopes a verifier
/// holds.
pub struct SecurityContext {
    /// Public keys (32 bytes each) whose packets and capability grants are
    /// accepted.
    pub trusted_keys: Vec<Vec<u8>>,
    /// Width of the acceptance window around `now`, nanoseconds.
    pub freshness_window_ns: i64,
    /// Scopes a packet's capability must grant one of; empty means no scope
    /// is demanded.
    pub required_scopes: Vec<Vec<u8>>,
}

impl SecurityContext {
    /// Verifies a packet against this context at clock reading `now_ns`,
    /// returning the payload or the first failed check, exactly as
    /// `spec_verify` lays them out.
    #[verifier::rlimit(100)]
    pub fn verify(&self, p: &SignedPacket, now_ns: i64) -> (r: Result<Vec<u8>, AuthError>)
        ensures
            ({
                let sv = spec_verify(
                    *p,
                    self.trusted_keys@,
                    self.required_scopes@,
                    now_ns,
                    self.freshness_window_ns,
                );
                match r {
                    Ok(v) => sv == Ok::<Seq<u8>, AuthError>(v@) && v@ == p.payload@,
                    Err(e) => sv == Err::<Seq<u8>, AuthError>(e),
                }
            }),
    {
        if !bytes_listed_exec(&self.trusted_keys, &p.key_id) {
            return Err(AuthError::UnknownKey);
        }
        if p.key_id.len() != 32 || p.signature.len() != 64 {
            return Err(AuthError::BadSignature);
        }
        let msg = packet_msg_exec(&p.payload, p.issued_at_ns, &p.capability);
        if !ed_verify_exec(&p.key_id, &msg, &p.signature) {
            return Err(AuthError::BadSignature);
        }
        let diff: i128 = (now_ns as i128) - (p.issued_at_ns as i128);
        let mag: i128 = if diff < 0 {
            -diff
        } else {
            diff
        };
        if mag > self.freshness_window_ns as i128 {
            return Err(AuthError::Stale);
        }
        match &p.capability {
            None => {
                if self.required_scopes.len() > 0 {
                    Err(AuthError::ScopeMissing)
                } else {
                    Ok(vec_u8_copy(&p.payload))
                }
            },
            Some(c) => {
                if c.issuer_pk.len() != 32 || c.issuer_sig.len() != 64 {
                    return Err(AuthError::CapabilityInvalid);
                }
                if !bytes_listed_exec(&self.trusted_keys, &c.issuer_pk) {
                    return Err(AuthError::CapabilityInvalid);
                }
                let cm = cap_msg_exec(&p.key_id, c);
                if !ed_verify_exec(&c.issuer_pk, &cm, &c.issuer_sig) {
                    return Err(AuthError::CapabilityInvalid);
                }
                if c.expiry_ns < now_ns {
                    return Err(AuthError::CapabilityExpired);
                }
                if self.required_scopes.len() > 0 && !bytes_listed_exec(
                    &self.required_scopes,
                    &c.scope,
                ) {
                    return Err(AuthError::ScopeMissing);
                }
                Ok(vec_u8_copy(&p.payload))
            },
        }
    }
}

/// An exact copy of a byte vector.
fn vec_u8_copy(x: &Vec<u8>) -> (r: Vec<u8>)
    ensures
        r@ == x@,
{
    let mut r: Vec<u8> = Vec::new();
    r.extend_from_slice(x.as_slice());
    proof {
        assert(r@ =~= x@);
    }
    r
}

/// Signature round trip: a packet whose signature verifies over its bytes —
/// as every packet `SignedPacket::new` produces does — is accepted whenever
/// its key is trusted, it lies within the freshness window, it carries no
/// capability and no scope is demanded; the payload comes back unchanged.
pub proof fn lemma_signature_roundtrip(
    p: SignedPacket,
    keys: Seq<Vec<u8>>,
    scopes: Seq<Vec<u8>>,
    now_ns: i64,
    window_ns: i64,
)
    requires
        bytes_listed(keys, p.key_id@),
        p.key_id@.len() == 32,
        p.signature@.len() == 64,
        ed_verifies(p.key_id@, spec_packet_msg(p.payload@, p.issued_at_ns, p.capability), p.signature@),
        abs_i(now_ns - p.issued_at_ns) <= window_ns,
        p.capability is None,
        scopes.len() == 0,
    ensures
        spec_verify(p, keys, scopes, now_ns, window_ns) == Ok::<Seq<u8>, AuthError>(p.payload@),
{
}

/// Verification is a function of the packet, the key set, the scopes and the
/// clock: the same inputs always give the same outcome.
pub proof fn lemma_verify_deterministic(
    p: SignedPacket,
    keys: Seq<Vec<u8>>,
    scopes: Seq<Vec<u8>>,
    now_ns: i64,
    window_ns: i64,
)
    ensures
        spec_verify(p, keys, scopes, now_ns, window_ns) == spec_verify(
            p,
            keys,
            scopes,
            now_ns,
            window_ns,
        ),
{
}


/// Issues a capability: the issuer signs (subject key ‖ scope ‖ expiry),
/// granting the subject the scope until the expiry.
pub fn issue_capability(
    issuer_sk: &Vec<u8>,
    subject_pk: &Vec<u8>,
    scope: Vec<u8>,
    expiry_ns: i64,
) -> (r: Capability)
    requires
        issuer_sk@.len() == 32,
    ensures
        r.scope@ == scope@,
        r.expiry_ns == expiry_ns,
        r.issuer_pk@ == ed_pub(issuer_sk@),
        r.issuer_pk@.len() == 32,
        r.issuer_sig@.len() == 64,
        ed_verifies(r.issuer_pk@, spec_cap_msg(subject_pk@, r), r.issuer_sig@),
{
    let c0 = Capability {
        scope,
        expiry_ns,
        issuer_pk: Vec::new(),
        issuer_sig: Vec::new(),
    };
    let msg = cap_msg_exec(subject_pk, &c0);
    let issuer_pk = ed_public_exec(issuer_sk);
    let issuer_sig = ed_sign_exec(issuer_sk, &msg);
    let r = Capability { scope: c0.scope, expiry_ns, issuer_pk, issuer_sig };
    proof {
        assert(spec_cap_msg(subject_pk@, r) == msg@);
    }
    r
}

} // verus!
