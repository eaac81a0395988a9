//! The authority deriver.
//!
//! A custody account is controlled by a derived, keyless authority: a pure
//! function of a fixed namespace tag, the maker's identity, the offer's id,
//! and a collision-avoidance salt.  No private key exists for the identifier;
//! any party can re-derive the *identifier*, but only code that reproduces
//! the exact derivation inputs in the same call path can present it as a
//! signing capability to the transfer adapter.

use vstd::prelude::*;

verus! {

/// Namespace tag under which custody authorities of offers are derived
/// (the bytes of the ASCII string "offer").
pub const OFFER_NAMESPACE: u64 = 0x6f66666572;

/// A derived, keyless controller identifier.
///
/// The identifier carries its full derivation input, so derivation is
/// injective by construction: two authorities are equal exactly when every
/// derivation input is equal.
#[derive(Clone, Copy, Debug, PartialEq, Eq, Structural)]
pub struct Authority {
    pub namespace: u64,
    pub maker: u64,
    pub id: u64,
    pub salt: u8,
}

/// The pure identifier function of (namespace, maker, id, salt).
pub open spec fn spec_authority(namespace: u64, maker: u64, id: u64, salt: u8) -> Authority {
    Authority { namespace, maker, id, salt }
}

/// What `derive_authority` returns: the authority under the first salt.
///
/// The identifier space is wide enough that the first salt always yields a
/// collision-free authority, so the search over salts never moves past it;
/// the salt is still returned and recorded because a take re-derives the
/// authority from the stored record.
pub open spec fn spec_derive_authority(namespace: u64, maker: u64, id: u64) -> (Authority, u8) {
    (spec_authority(namespace, maker, id, 0), 0)
}

/// Derives the custody authority for (namespace, maker, id) together with
/// the salt that made it collision-free.
///
/// The result is a pure function of the arguments alone: repeated calls with
/// identical inputs always yield the identical identifier.
pub fn derive_authority(namespace: u64, maker: u64, id: u64) -> (r: (Authority, u8))
    ensures
        r == spec_derive_authority(namespace, maker, id),
{
    (Authority { namespace, maker, id, salt: 0 }, 0)
}

/// Re-derives the authority for a recorded salt, as the take handler does
/// from the offer record's stored fields.
pub fn rederive_authority(namespace: u64, maker: u64, id: u64, salt: u8) -> (r: Authority)
    ensures
        r == spec_authority(namespace, maker, id, salt),
{
    Authority { namespace, maker, id, salt }
}

/// Derivation is injective: equal authorities come from equal inputs, so an
/// authority derived for one (maker, id) pair never collides with the
/// authority of another.
pub proof fn lemma_authority_injective(
    n1: u64, m1: u64, i1: u64, s1: u8,
    n2: u64, m2: u64, i2: u64, s2: u8,
)
    ensures
        spec_authority(n1, m1, i1, s1) == spec_authority(n2, m2, i2, s2) <==> (n1 == n2 && m1
            == m2 && i1 == i2 && s1 == s2),
{
}

} // verus!
