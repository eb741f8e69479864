//! The keyed hash that every name filter draws its bits from.

use vstd::prelude::*;

verus! {

/// What SipHash-2-4 returns for `data` under the sixteen key bytes `key`.
pub uninterp spec fn siphash24_of(key: Seq<u8>, data: Seq<u8>) -> u64;

/// Calls `siphasher::sip::SipHasher24::hash` on a hasher made by
/// `SipHasher24::new_with_key`. The hasher keeps no state but the key, so the
/// result is a function of the key bytes and of `data` alone, on every machine:
/// it is what `siphash24_of` names. Nothing else is claimed of the value.
#[verifier::external_body]
pub(crate) fn siphash24(key: &[u8; 16], data: &[u8]) -> (h: u64)
    ensures
        h == siphash24_of(key@, data@),
{
    siphasher::sip::SipHasher24::new_with_key(key).hash(data)
}

} // verus!
