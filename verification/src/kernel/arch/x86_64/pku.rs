//! Protection keys for user pages: every user page carries a key, and the PKRU register says which
//! keys the running task may use.

use vstd::prelude::*;

verus! {

/// The bit that turns the keys on, in CR4.
pub const CR4_PKE: u64 = 0x40_0000;

/// The bits of a page's entry that hold key `pkey`, of which the low four bits count.
#[must_use]
pub fn pkey_bits(pkey: u64) -> (bits: u64)
    ensures
        bits == (pkey % 16) * 0x0800_0000_0000_0000,
        bits == (pkey & 0xf) << 59,
{
    assert((pkey & 0xf) << 59 == (pkey % 16) * 0x0800_0000_0000_0000) by (bit_vector);
    (pkey & 0xf) << 59
}

/// What PKRU says of key `k`: 0 allows everything, 1 nothing.
pub open spec fn pkru_of(pkru: u32, k: u32) -> u32 {
    (pkru >> (2 * k)) & 3
}

/// The PKRU of a task with key `allow`: that key and key 0, which the shared pages have, are
/// allowed, and nothing else.
pub fn pkru_allow_only(allow: u64) -> (pkru: u32)
    ensures
        forall|k: u32|
            k < 16 ==> #[trigger] pkru_of(pkru, k) == if k == allow % 16 || k == 0 {
                0u32
            } else {
                1
            },
{
    assert(allow & 0xf == allow % 16) by (bit_vector);
    let k: u32 = (allow & 0xf) as u32;
    let pkru: u32 = 0x5555_5555 & !(1u32 << (2 * k)) & !1u32;
    assert forall|j: u32| j < 16 implies #[trigger] pkru_of(pkru, j) == if j == k || j == 0 {
        0u32
    } else {
        1
    } by {
        assert((pkru >> (2 * j)) & 3 == if j == k || j == 0 {
            0u32
        } else {
            1
        }) by (bit_vector)
            requires
                j < 16,
                k < 16,
                pkru == 0x5555_5555u32 & !(1u32 << (2 * k)) & !1u32,
        ;
    }
    pkru
}

/// Whether the processor has protection keys, and whether they are in use.
#[derive(Clone, Copy, PartialEq, Eq, Structural, Debug)]
pub struct Pku {
    enabled: bool,
}

impl Pku {
    /// Keys are in use.
    pub closed spec fn in_use(self) -> bool {
        self.enabled
    }

    /// Keys are not in use before they are probed for.
    pub fn new() -> (pku: Pku)
        ensures
            !pku.in_use(),
    {
        Pku { enabled: false }
    }
}

/// Whether protection keys separate the domains.
#[must_use]
pub fn available(pku: &Pku) -> (r: bool)
    ensures
        r == pku.in_use(),
{
    pku.enabled
}

/// Put the keys to use if the processor has them, as ECX of CPUID leaf 7 says: the new value of
/// CR4, or `None` if there is nothing to set.
pub fn init(pku: &mut Pku, ecx: u32, cr4: u64) -> (r: Option<u64>)
    ensures
        final(pku).in_use() <==> ecx & 8 != 0,
        r == (if ecx & 8 != 0 {
            Some(cr4 | CR4_PKE)
        } else {
            None
        }),
{
    pku.enabled = ecx & 8 != 0;
    if pku.enabled {
        Some(cr4 | CR4_PKE)
    } else {
        None
    }
}

/// What PKRU is set to for the task that comes to run: a process has its own key and the shared
/// one, which is key 0, and a kernel task has key 0 alone. `None` if keys are not in use.
pub fn set_domain(pku: &Pku, pkey: Option<u64>) -> (r: Option<u32>)
    ensures
        r is Some <==> pku.in_use(),
        r matches Some(pkru) ==> forall|k: u32|
            k < 16 ==> #[trigger] pkru_of(pkru, k) == match pkey {
                Some(own) if k == own % 16 => 0u32,
                _ => if k == 0 {
                    0
                } else {
                    1
                },
            },
{
    if !available(pku) {
        return None;
    }
    match pkey {
        Some(k) => Some(pkru_allow_only(k)),
        None => Some(pkru_allow_only(0)),
    }
}


/// **Law:** PKRU has two bits for each key, from the lowest on.
pub proof fn law_keys_have_two_bits_each(pkru: u32, k: u32)
    requires
        k < 16,
    ensures
        pkru_of(pkru, k) == pkru as nat / vstd::arithmetic::power2::pow2(2 * k as nat) % 4,
{
    vstd::bits::lemma_u32_shr_is_div(pkru, (2 * k) as u32);
    vstd::bits::lemma_u32_low_bits_mask_is_mod(pkru >> (2 * k), 2);
    vstd::bits::lemma_low_bits_mask_values();
    vstd::arithmetic::power2::lemma2_to64();
}

} // verus!
